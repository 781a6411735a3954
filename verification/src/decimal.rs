//! Decimal numbers as text: an optional sign, digits with an optional point,
//! and an optional exponent, as in `1355.211304`, `-.5` or `2.5e3`. The text
//! is read exactly; nothing is rounded before the one rounding to a whole
//! number that this module is for.

use vstd::prelude::*;
use vstd::arithmetic::div_mod::{
    lemma_basic_div, lemma_fundamental_div_mod, lemma_fundamental_div_mod_converse,
    lemma_mod_pos_bound, lemma_small_mod,
};
use vstd::arithmetic::mul::lemma_mul_inequality;
use crate::digits::{
    all_digits, all_digits_in, all_zeros, all_zeros_in, chars_of, digit_of, digits_value, is_digit,
    lemma_all_digits_concat, lemma_digits_value_bound, lemma_digits_value_concat,
    lemma_digits_value_zero, lemma_pow10_beyond_u128, lemma_pow10_increases, lemma_pow10_positive,
    pow10, value_of,
};

verus! {

/// `c` is one of the two characters `a` and `b`.
pub open spec fn is_mark(c: char, a: char, b: char) -> bool {
    c == a || c == b
}

/// `at` is the place of the first `a` or `b` in `text`, or the length of
/// `text` where neither occurs.
pub open spec fn is_first(text: Seq<char>, a: char, b: char, at: int) -> bool {
    &&& 0 <= at <= text.len()
    &&& forall|i: int| 0 <= i < at ==> !is_mark(#[trigger] text[i], a, b)
    &&& at < text.len() ==> is_mark(text[at], a, b)
}

/// The place of the first `a` or `b` in `text`, or the length of `text`.
pub open spec fn first_of(text: Seq<char>, a: char, b: char) -> int {
    choose|at: int| is_first(text, a, b, at)
}

/// How many characters the sign in front of `text` takes: one or none.
pub open spec fn sign_len(text: Seq<char>) -> int {
    if text.len() > 0 && (text[0] == '+' || text[0] == '-') {
        1
    } else {
        0
    }
}

/// `text` starts with a minus sign.
pub open spec fn is_negative(text: Seq<char>) -> bool {
    text.len() > 0 && text[0] == '-'
}

/// `text` without its sign.
pub open spec fn unsigned_part(text: Seq<char>) -> Seq<char> {
    text.skip(sign_len(text))
}

/// `text` has an exponent: an `e` or `E` after its sign.
pub open spec fn has_exponent(text: Seq<char>) -> bool {
    first_of(unsigned_part(text), 'e', 'E') < unsigned_part(text).len()
}

/// What stands between the sign and the exponent.
pub open spec fn mantissa_text(text: Seq<char>) -> Seq<char> {
    unsigned_part(text).take(first_of(unsigned_part(text), 'e', 'E'))
}

/// What follows the `e` or `E`.
pub open spec fn exponent_text(text: Seq<char>) -> Seq<char> {
    unsigned_part(text).skip(first_of(unsigned_part(text), 'e', 'E') + 1)
}

/// The mantissa up to its point.
pub open spec fn int_digits(text: Seq<char>) -> Seq<char> {
    mantissa_text(text).take(first_of(mantissa_text(text), '.', '.'))
}

/// The mantissa after its point; empty where it has no point.
pub open spec fn frac_digits(text: Seq<char>) -> Seq<char> {
    let mantissa = mantissa_text(text);
    let point = first_of(mantissa, '.', '.');
    if point < mantissa.len() {
        mantissa.skip(point + 1)
    } else {
        Seq::<char>::empty()
    }
}

/// `text` is a whole number with an optional sign and at least one digit.
pub open spec fn is_signed_integer(text: Seq<char>) -> bool {
    unsigned_part(text).len() > 0 && all_digits(unsigned_part(text))
}

/// The number that the signed integer `text` writes.
pub open spec fn signed_integer_value(text: Seq<char>) -> int {
    if is_negative(text) {
        -(digits_value(unsigned_part(text)) as int)
    } else {
        digits_value(unsigned_part(text)) as int
    }
}

/// `text` is a decimal number: an optional sign; digits, with a point before,
/// among or after them, or without one; and then, optionally, `e` or `E` and
/// a signed integer.
pub open spec fn is_decimal(text: Seq<char>) -> bool {
    &&& all_digits(int_digits(text))
    &&& all_digits(frac_digits(text))
    &&& int_digits(text).len() + frac_digits(text).len() > 0
    &&& has_exponent(text) ==> is_signed_integer(exponent_text(text))
}

/// All the digits of the mantissa.
pub open spec fn mantissa_digits(text: Seq<char>) -> Seq<char> {
    int_digits(text) + frac_digits(text)
}

/// The power of ten that the mantissa's digits, read as one whole number,
/// are to be multiplied by: the exponent less the number of digits after the
/// point.
pub open spec fn scale(text: Seq<char>) -> int {
    (if has_exponent(text) {
        signed_integer_value(exponent_text(text))
    } else {
        0
    }) - frac_digits(text).len()
}

/// The whole part of `n` times ten to the power `k`.
pub open spec fn scaled_whole(n: nat, k: int) -> nat {
    if k >= 0 {
        n * pow10(k as nat)
    } else {
        (n / pow10((-k) as nat)) as nat
    }
}

/// `n` times ten to the power `k` is a whole number.
pub open spec fn scaled_is_whole(n: nat, k: int) -> bool {
    k >= 0 || n % pow10((-k) as nat) == 0
}

/// `n` times ten to the power `k` as a whole number: rounded up if `up`,
/// down if not.
pub open spec fn scaled_rounded(n: nat, k: int, up: bool) -> nat {
    if up && !scaled_is_whole(n, k) {
        scaled_whole(n, k) + 1
    } else {
        scaled_whole(n, k)
    }
}

/// The size of the decimal number `text`, without its sign, as a whole
/// number: rounded up if `up`, down if not.
pub open spec fn rounded_magnitude(text: Seq<char>, up: bool) -> nat {
    scaled_rounded(digits_value(mantissa_digits(text)), scale(text), up)
}

/// The size of the decimal number `text`, without its sign, rounded to the
/// next whole number that is not below the number itself: up for a positive
/// number, down for a negative one.
pub open spec fn ceiling_magnitude(text: Seq<char>) -> nat {
    rounded_magnitude(text, !is_negative(text))
}

/// There is only one first place.
pub proof fn lemma_first_of(text: Seq<char>, a: char, b: char, at: int)
    requires
        is_first(text, a, b, at),
    ensures
        first_of(text, a, b) == at,
{
    let other = first_of(text, a, b);
    assert(is_first(text, a, b, other));
    if other < at {
        assert(!is_mark(text[other], a, b));
    } else if at < other {
        assert(!is_mark(text[at], a, b));
    }
}

/// Rounding does what its name says. Where `n` is divided by ten to the
/// power `m`, rounding down gives the largest whole number that is not above
/// the quotient, and rounding up the smallest that is not below it.
pub proof fn lemma_rounding_brackets(n: nat, m: nat)
    requires
        m > 0,
    ensures
        scaled_rounded(n, -(m as int), false) * pow10(m) <= n,
        n < (scaled_rounded(n, -(m as int), false) + 1) * pow10(m),
        (scaled_rounded(n, -(m as int), true) - 1) * pow10(m) < n,
        n <= scaled_rounded(n, -(m as int), true) * pow10(m),
{
    let p = pow10(m) as int;
    let q = n as int / p;
    let r = n as int % p;
    lemma_pow10_positive(m);
    lemma_fundamental_div_mod(n as int, p);
    lemma_mod_pos_bound(n as int, p);
    assert(0 <= q) by (nonlinear_arith)
        requires
            q == n as int / p,
            p >= 1,
    ;
    assert(q * p == p * q) by (nonlinear_arith);
    assert((q + 1) * p == q * p + p) by (nonlinear_arith);
    assert((q - 1) * p == q * p - p) by (nonlinear_arith);
}

/// A number written as digits, a point and more digits, rounded up to a whole
/// number, is the number before the point, and one more unless the digits
/// after the point are all `0`.
pub proof fn lemma_plain_decimal(whole: Seq<char>, fraction: Seq<char>)
    requires
        whole.len() > 0,
        all_digits(whole),
        all_digits(fraction),
    ensures
        is_decimal(whole.push('.') + fraction),
        !is_negative(whole.push('.') + fraction),
        ceiling_magnitude(whole.push('.') + fraction) == digits_value(whole) + (if all_zeros(
            fraction,
        ) {
            0nat
        } else {
            1nat
        }),
{
    let text = whole.push('.') + fraction;
    let point = whole.len() as int;
    assert(is_digit(whole[0]));
    assert(text[0] == whole[0]);
    assert(unsigned_part(text) =~= text);
    assert forall|i: int| 0 <= i < text.len() implies !is_mark(#[trigger] text[i], 'e', 'E') by {
        if i < point {
            assert(is_digit(whole[i]));
            assert(text[i] == whole[i]);
        } else if i > point {
            assert(is_digit(fraction[i - point - 1]));
            assert(text[i] == fraction[i - point - 1]);
        }
    }
    lemma_first_of(text, 'e', 'E', text.len() as int);
    assert(mantissa_text(text) =~= text);
    assert forall|i: int| 0 <= i < point implies !is_mark(#[trigger] text[i], '.', '.') by {
        assert(is_digit(whole[i]));
        assert(text[i] == whole[i]);
    }
    assert(text[point] == '.');
    lemma_first_of(text, '.', '.', point);
    assert(int_digits(text) =~= whole);
    assert(frac_digits(text) =~= fraction);
    let digits = whole + fraction;
    assert(mantissa_digits(text) == digits);
    assert(scale(text) == -(fraction.len() as int));
    if fraction.len() == 0 {
        assert(digits =~= whole);
        assert(pow10(0) == 1);
    } else {
        assert(all_digits(digits)) by {
            assert forall|i: int| 0 <= i < digits.len() implies is_digit(#[trigger] digits[i]) by {
                if i < point {
                    assert(digits[i] == whole[i]);
                } else {
                    assert(digits[i] == fraction[i - point]);
                }
            }
        }
        lemma_scaled_down(digits, fraction.len());
        assert(digits.take(point) =~= whole);
        assert(digits.skip(point) =~= fraction);
    }
}

/// Dividing by ten to the power `m` cuts the last `m` digits off: the
/// quotient is written by the digits before them, and the division leaves no
/// remainder exactly when the digits cut off are all `0`.
proof fn lemma_scaled_down(digits: Seq<char>, m: nat)
    requires
        all_digits(digits),
        m > 0,
    ensures
        ({
            let kept = if m <= digits.len() {
                digits.len() - m
            } else {
                0
            };
            &&& scaled_whole(digits_value(digits), -(m as int)) == digits_value(digits.take(kept))
            &&& scaled_is_whole(digits_value(digits), -(m as int)) <==> all_zeros(
                digits.skip(kept),
            )
        }),
{
    let n = digits_value(digits);
    let p = pow10(m);
    lemma_pow10_positive(m);
    if m <= digits.len() {
        let kept = digits.len() - m;
        let front = digits.take(kept);
        let back = digits.skip(kept);
        assert(digits =~= front + back);
        assert(all_digits(back)) by {
            assert forall|i: int| 0 <= i < back.len() implies is_digit(#[trigger] back[i]) by {
                assert(back[i] == digits[kept + i]);
            }
        }
        lemma_digits_value_concat(front, back);
        lemma_digits_value_bound(back);
        lemma_digits_value_zero(back);
        lemma_fundamental_div_mod_converse(
            n as int,
            p as int,
            digits_value(front) as int,
            digits_value(back) as int,
        );
    } else {
        assert(digits.take(0) =~= Seq::<char>::empty());
        assert(digits.skip(0) =~= digits);
        lemma_digits_value_bound(digits);
        lemma_pow10_increases(digits.len(), m);
        lemma_digits_value_zero(digits);
        lemma_basic_div(n as int, p as int);
        lemma_small_mod(n, p);
    }
}

/// A large power of ten takes every number but zero beyond 128 bits.
proof fn lemma_scaled_up_overflows(n: nat, k: nat)
    requires
        n >= 1,
        k >= 39,
    ensures
        n * pow10(k) > u128::MAX,
{
    lemma_pow10_beyond_u128();
    lemma_pow10_increases(39, k);
    lemma_mul_inequality(1, n as int, pow10(k) as int);
    assert(1 * pow10(k) == pow10(k));
}

/// A power of ten as large as the run of digits is long leaves nothing in
/// front of the point, however much larger it is.
proof fn lemma_scaled_far_down(digits: Seq<char>, m1: nat, m2: nat, up: bool)
    requires
        all_digits(digits),
        m1 >= digits.len(),
        m2 >= digits.len(),
        m1 > 0,
        m2 > 0,
    ensures
        scaled_rounded(digits_value(digits), -(m1 as int), up) == scaled_rounded(
            digits_value(digits),
            -(m2 as int),
            up,
        ),
{
    lemma_scaled_down(digits, m1);
    lemma_scaled_down(digits, m2);
    assert(digits.take(0) =~= Seq::<char>::empty());
    if m1 == digits.len() {
        assert(digits.take(digits.len() - m1) =~= digits.take(0));
        assert(digits.skip(digits.len() - m1) =~= digits.skip(0));
    }
    if m2 == digits.len() {
        assert(digits.take(digits.len() - m2) =~= digits.take(0));
        assert(digits.skip(digits.len() - m2) =~= digits.skip(0));
    }
}

/// An exponent is read exactly up to this size and counts as this size
/// beyond it, which makes no difference to any result: such a power of ten
/// takes every number but zero out of range, or below one.
const EXPONENT_CAP: u128 = 1_000_000_000_000_000_000_000_000_000_000;

/// `exponent`, held within the cap on either side.
spec fn capped(exponent: int) -> int {
    if exponent > EXPONENT_CAP {
        EXPONENT_CAP as int
    } else if exponent < -EXPONENT_CAP {
        -EXPONENT_CAP
    } else {
        exponent
    }
}

/// Capping the exponent changes no result that fits in 128 bits, and takes
/// none into that range.
proof fn lemma_capped_scale(digits: Seq<char>, frac_len: nat, exponent: int, up: bool)
    requires
        all_digits(digits),
        frac_len <= digits.len() <= usize::MAX,
    ensures
        ({
            let n = digits_value(digits);
            let exact = scaled_rounded(n, exponent - frac_len, up);
            let held = scaled_rounded(n, capped(exponent) - frac_len, up);
            &&& exact <= u128::MAX <==> held <= u128::MAX
            &&& exact <= u128::MAX ==> exact == held
        }),
{
    let n = digits_value(digits);
    if exponent > EXPONENT_CAP {
        let k1 = (exponent - frac_len) as nat;
        let k2 = (capped(exponent) - frac_len) as nat;
        if n == 0 {
            assert(0 * pow10(k1) == 0) by (nonlinear_arith);
            assert(0 * pow10(k2) == 0) by (nonlinear_arith);
        } else {
            lemma_scaled_up_overflows(n, k1);
            lemma_scaled_up_overflows(n, k2);
        }
    } else if exponent < -EXPONENT_CAP {
        lemma_scaled_far_down(
            digits,
            (frac_len - exponent) as nat,
            (frac_len - capped(exponent)) as nat,
            up,
        );
    }
}

/// A whole number as a sign and a size. Zero may carry a minus sign: it then
/// stands for a negative number that was rounded up to zero.
#[derive(Debug, Clone, Copy, PartialEq, Eq)]
pub struct Whole {
    pub negative: bool,
    pub magnitude: u128,
}

/// Reads the decimal number `text` and rounds it to the next whole number
/// that is not below it. `None` where `text` is no decimal number or the
/// whole number's size does not fit in 128 bits.
pub fn ceiling_of_decimal(text: &str) -> (ceiling: Option<Whole>)
    ensures
        ceiling is Some <==> is_decimal(text@) && ceiling_magnitude(text@) <= u128::MAX,
        ceiling matches Some(whole) ==> whole.negative == is_negative(text@) && whole.magnitude
            == ceiling_magnitude(text@),
{
    let chars = chars_of(text);
    let negative = chars.len() > 0 && chars[0] == '-';
    let at = lay_out(&chars);
    if !all_digits_in(&chars, at.start, at.point) || !all_digits_in(&chars, at.after, at.mark) {
        return None;
    }
    if at.point == at.start && at.after == at.mark {
        return None;
    }
    let exponent = match exponent_after(&chars, at.mark) {
        None => {
            return None;
        },
        Some(exponent) => exponent,
    };
    assert(is_decimal(text@));
    let digits = joined_digits(&chars, at.start, at.point, at.after, at.mark);
    let ghost written = scale(text@) + frac_digits(text@).len();
    proof {
        assert(digits@ == mantissa_digits(text@));
        assert(exponent == capped(written));
        lemma_all_digits_concat(int_digits(text@), frac_digits(text@));
        lemma_capped_scale(digits@, frac_digits(text@).len(), written, !negative);
        assert(ceiling_magnitude(text@) == scaled_rounded(
            digits_value(digits@),
            written - frac_digits(text@).len(),
            !negative,
        ));
    }
    match round_scaled(&digits, exponent - (at.mark - at.after) as i128, !negative) {
        None => None,
        Some(magnitude) => Some(Whole { negative, magnitude }),
    }
}

/// Where the parts of a decimal number stand in its text: its int digits
/// from `start` to `point`, its fraction digits from `after` to `mark`, and
/// its exponent, if `mark` is not the end, after `mark`.
struct Layout {
    start: usize,
    point: usize,
    after: usize,
    mark: usize,
}

/// Finds the parts of `chars`, read as a decimal number.
fn lay_out(chars: &Vec<char>) -> (at: Layout)
    ensures
        at.start <= at.point <= at.after <= at.mark <= chars.len(),
        int_digits(chars@) == chars@.subrange(at.start as int, at.point as int),
        frac_digits(chars@) == chars@.subrange(at.after as int, at.mark as int),
        has_exponent(chars@) <==> at.mark < chars.len(),
        at.mark < chars.len() ==> exponent_text(chars@) == chars@.skip(at.mark + 1),
{
    let n = chars.len();
    let start: usize = if n > 0 && (chars[0] == '+' || chars[0] == '-') { 1 } else { 0 };
    let mark = find_first(chars, start, n, 'e', 'E');
    let point = find_first(chars, start, mark, '.', '.');
    let after: usize = if point < mark { point + 1 } else { mark };
    proof {
        let text = chars@;
        assert(unsigned_part(text) =~= text.subrange(start as int, n as int));
        assert(mantissa_text(text) =~= text.subrange(start as int, mark as int));
        assert(int_digits(text) =~= text.subrange(start as int, point as int));
        assert(frac_digits(text) =~= text.subrange(after as int, mark as int));
        if mark < n {
            assert(exponent_text(text) =~= text.skip(mark + 1));
        }
    }
    Layout { start, point, after, mark }
}

/// Where the first `a` or `b` stands in `chars[from..to]`, or `to`.
fn find_first(chars: &Vec<char>, from: usize, to: usize, a: char, b: char) -> (at: usize)
    requires
        from <= to <= chars.len(),
    ensures
        from <= at <= to,
        first_of(chars@.subrange(from as int, to as int), a, b) == at - from,
{
    let mut at: usize = from;
    while at < to && chars[at] != a && chars[at] != b
        invariant
            from <= at <= to <= chars.len(),
            forall|j: int| from <= j < at ==> !is_mark(#[trigger] chars@[j], a, b),
        decreases to - at,
    {
        at += 1;
    }
    proof {
        let text = chars@.subrange(from as int, to as int);
        assert forall|i: int| 0 <= i < at - from implies !is_mark(#[trigger] text[i], a, b) by {
            assert(text[i] == chars@[from + i]);
        }
        if at < to {
            assert(text[at - from] == chars@[at as int]);
        }
        lemma_first_of(text, a, b, at - from);
    }
    at
}

/// The exponent of `chars`, held within the cap: zero where `mark` is the
/// end, else what the signed integer after `mark` says. `None` where what
/// stands there is no signed integer.
fn exponent_after(chars: &Vec<char>, mark: usize) -> (exponent: Option<i128>)
    requires
        mark <= chars.len(),
    ensures
        exponent is Some <==> (mark < chars.len() ==> is_signed_integer(chars@.skip(mark + 1))),
        exponent is Some ==> exponent->0 == capped(
            if mark < chars.len() {
                signed_integer_value(chars@.skip(mark + 1))
            } else {
                0
            },
        ),
{
    if mark < chars.len() {
        read_exponent(chars, mark + 1)
    } else {
        Some(0)
    }
}

/// The signed integer `chars[from..]`, held within the cap, or `None` where
/// these characters are no signed integer.
fn read_exponent(chars: &Vec<char>, from: usize) -> (exponent: Option<i128>)
    requires
        from <= chars.len(),
    ensures
        exponent is Some <==> is_signed_integer(chars@.skip(from as int)),
        exponent is Some ==> exponent->0 == capped(
            signed_integer_value(chars@.skip(from as int)),
        ),
{
    let n = chars.len();
    let ghost text = chars@.skip(from as int);
    let negative = from < n && chars[from] == '-';
    let first: usize = if from < n && (chars[from] == '+' || chars[from] == '-') {
        from + 1
    } else {
        from
    };
    assert(unsigned_part(text) =~= chars@.subrange(first as int, n as int));
    if first == n || !all_digits_in(chars, first, n) {
        return None;
    }
    let size = capped_value_of(chars, first, n);
    if negative {
        Some(-(size as i128))
    } else {
        Some(size as i128)
    }
}

/// The number written by the digits `chars[from..to]`, or the cap where the
/// number is larger.
fn capped_value_of(chars: &Vec<char>, from: usize, to: usize) -> (value: u128)
    requires
        from <= to <= chars.len(),
        all_digits(chars@.subrange(from as int, to as int)),
    ensures
        value == capped(digits_value(chars@.subrange(from as int, to as int)) as int),
{
    let ghost text = chars@.subrange(from as int, to as int);
    let mut acc: u128 = 0;
    let mut i: usize = from;
    while i < to
        invariant
            from <= i <= to <= chars.len(),
            text == chars@.subrange(from as int, to as int),
            all_digits(text),
            acc == capped(digits_value(chars@.subrange(from as int, i as int)) as int),
        decreases to - i,
    {
        let c = chars[i];
        assert(text[i - from] == c);
        let d = digit_of(c) as u128;
        proof {
            let longer = chars@.subrange(from as int, i + 1);
            assert(longer.drop_last() =~= chars@.subrange(from as int, i as int));
            assert(longer.last() == c);
        }
        let next = acc * 10 + d;
        acc = if next > EXPONENT_CAP { EXPONENT_CAP } else { next };
        i += 1;
    }
    acc
}

/// The digits `chars[from..point]` followed by `chars[after..to]`.
fn joined_digits(chars: &Vec<char>, from: usize, point: usize, after: usize, to: usize) -> (digits:
    Vec<char>)
    requires
        from <= point <= after <= to <= chars.len(),
    ensures
        digits@ == chars@.subrange(from as int, point as int) + chars@.subrange(
            after as int,
            to as int,
        ),
{
    let mut digits: Vec<char> = Vec::new();
    let mut i: usize = from;
    while i < point
        invariant
            from <= i <= point <= chars.len(),
            digits@ == chars@.subrange(from as int, i as int),
        decreases point - i,
    {
        digits.push(chars[i]);
        assert(chars@.subrange(from as int, i + 1) =~= chars@.subrange(from as int, i as int).push(
            chars@[i as int],
        ));
        i += 1;
    }
    let mut j: usize = after;
    while j < to
        invariant
            after <= j <= to <= chars.len(),
            digits@ == chars@.subrange(from as int, point as int) + chars@.subrange(
                after as int,
                j as int,
            ),
        decreases to - j,
    {
        digits.push(chars[j]);
        assert(chars@.subrange(after as int, j + 1) =~= chars@.subrange(after as int, j as int).push(
            chars@[j as int],
        ));
        j += 1;
    }
    digits
}

/// The number written by `digits`, times ten to the power `k`, as a whole
/// number: rounded up if `up`, down if not. `None` where that does not fit in
/// 128 bits.
fn round_scaled(digits: &Vec<char>, k: i128, up: bool) -> (rounded: Option<u128>)
    requires
        all_digits(digits@),
        k > i128::MIN,
    ensures
        rounded is Some <==> scaled_rounded(digits_value(digits@), k as int, up) <= u128::MAX,
        rounded is Some ==> rounded->0 == scaled_rounded(digits_value(digits@), k as int, up),
{
    let len = digits.len();
    assert(digits@.subrange(0, len as int) =~= digits@);
    if k >= 0 {
        match value_of(digits, 0, len) {
            None => {
                proof {
                    lemma_pow10_positive(k as nat);
                    lemma_mul_inequality(
                        1,
                        pow10(k as nat) as int,
                        digits_value(digits@) as int,
                    );
                    assert(pow10(k as nat) * digits_value(digits@) == digits_value(digits@)
                        * pow10(k as nat)) by (nonlinear_arith);
                }
                None
            },
            Some(n) => times_pow10(n, k as u128),
        }
    } else {
        proof {
            lemma_scaled_down(digits@, (-k) as nat);
        }
        let kept: usize = if -k >= len as i128 { 0 } else { len - ((-k) as usize) };
        assert(digits@.subrange(0, kept as int) =~= digits@.take(kept as int));
        assert(digits@.subrange(kept as int, len as int) =~= digits@.skip(kept as int));
        assert(all_digits(digits@.take(kept as int))) by {
            assert forall|i: int| 0 <= i < kept implies is_digit(
                #[trigger] digits@.take(kept as int)[i],
            ) by {
                assert(digits@.take(kept as int)[i] == digits@[i]);
            }
        }
        match value_of(digits, 0, kept) {
            None => None,
            Some(whole) => {
                if up && !all_zeros_in(digits, kept, len) {
                    if whole == u128::MAX {
                        None
                    } else {
                        Some(whole + 1)
                    }
                } else {
                    Some(whole)
                }
            },
        }
    }
}

/// `n` times ten to the power `k`, or `None` where that does not fit in 128
/// bits.
fn times_pow10(n: u128, k: u128) -> (product: Option<u128>)
    ensures
        product is Some <==> n * pow10(k as nat) <= u128::MAX,
        product is Some ==> product->0 == n * pow10(k as nat),
{
    if n == 0 {
        assert(0 * pow10(k as nat) == 0) by (nonlinear_arith);
        return Some(0);
    }
    let mut acc: u128 = n;
    let mut done: u128 = 0;
    while done < k
        invariant
            done <= k,
            acc >= 1,
            acc * pow10((k - done) as nat) == n * pow10(k as nat),
        decreases k - done,
    {
        let ghost rest = pow10((k - done - 1) as nat);
        assert(pow10((k - done) as nat) == 10 * rest);
        if acc > u128::MAX / 10 {
            proof {
                lemma_pow10_positive((k - done - 1) as nat);
                assert(acc * (10 * rest) >= acc * 10) by (nonlinear_arith)
                    requires
                        rest >= 1,
                        acc >= 1,
                ;
            }
            return None;
        }
        assert(acc * (10 * rest) == (acc * 10) * rest) by (nonlinear_arith);
        acc = acc * 10;
        done += 1;
    }
    assert(acc * 1 == acc) by (nonlinear_arith);
    Some(acc)
}

} // verus!
