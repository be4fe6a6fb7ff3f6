//! Amounts of money, prices and sizes: decimal fixed point with ten decimals.
//!
//! An amount is an `i128` that counts units of `10^-10`. Amounts beyond `LIMIT` units,
//! either way, are cut off there.
use crate::text::{
    all_digits, chars_of, digits_value, find_char, first_position, is_digit, least,
    lemma_first_position, read_digits,
    ten_to,
};
use crate::wide::{lemma_powers_of_scale, lemma_signed_product, round_signed, unsigned, Wide};
use vstd::arithmetic::div_mod::{
    lemma_fundamental_div_mod, lemma_fundamental_div_mod_converse, lemma_hoist_over_denominator,
};
use vstd::arithmetic::mul::lemma_mul_is_associative;
use vstd::prelude::*;

verus! {

/// The units in one.
pub const SCALE: i128 = 10_000_000_000;

/// The decimals that an amount has.
pub const DECIMALS: usize = 10;

/// The largest amount, in units.
pub const LIMIT: i128 = 10_000_000_000_000_000_000_000_000_000;

/// The amounts that are not cut off.
pub open spec fn in_range(x: int) -> bool {
    -LIMIT <= x <= LIMIT
}

/// The amounts that rounding to a step can reach.
pub open spec fn near_range(x: int) -> bool {
    -2 * LIMIT <= x <= 2 * LIMIT
}

/// The nearest amount that is not cut off.
pub open spec fn clamp(x: int) -> int {
    if x > LIMIT {
        LIMIT as int
    } else if x < -LIMIT {
        -LIMIT
    } else {
        x
    }
}

/// `a / b` to the nearest whole, halves up; for `a` not below zero.
pub open spec fn round_up_div(a: int, b: int) -> int {
    (2 * a + b) / (2 * b)
}

/// `a / b` to the nearest whole, halves away from zero.
pub open spec fn round_div(a: int, b: int) -> int {
    if a >= 0 {
        round_up_div(a, b)
    } else {
        -round_up_div(-a, b)
    }
}

/// `x` to the nearest multiple of `step`, halves away from zero.
pub open spec fn round_to(x: int, step: int) -> int {
    round_div(x, step) * step
}

/// `a * b` as an amount.
pub open spec fn product(a: int, b: int) -> int {
    clamp(round_div(a * b, SCALE as int))
}

/// The distance of two amounts.
pub open spec fn distance(a: int, b: int) -> int {
    if a >= b {
        a - b
    } else {
        b - a
    }
}

/// `x` without its sign.
pub open spec fn magnitude(x: int) -> int {
    distance(x, 0)
}

/// Is it an amount within the limits?
pub fn is_amount(x: i128) -> (r: bool)
    ensures
        r == in_range(x as int),
{
    -LIMIT <= x && x <= LIMIT
}

/// Cuts off at the limits.
pub fn clamp_amount(x: i128) -> (r: i128)
    ensures
        r == clamp(x as int),
        in_range(r as int),
{
    if x > LIMIT {
        LIMIT
    } else if x < -LIMIT {
        -LIMIT
    } else {
        x
    }
}

/// Are two amounts further apart than `gap`?
pub fn apart(a: i128, b: i128, gap: i128) -> (r: bool)
    requires
        in_range(a as int),
        in_range(b as int),
    ensures
        r == (distance(a as int, b as int) > gap),
{
    if a >= b {
        a - b > gap
    } else {
        b - a > gap
    }
}

/// What `round_div` keeps: its sign, and a distance of at most half a divisor.
pub proof fn lemma_round_div(a: int, b: int)
    requires
        b > 0,
    ensures
        2 * distance(round_to(a, b), a) <= b,
        a >= 0 ==> round_div(a, b) >= 0,
        a <= 0 ==> round_div(a, b) <= 0,
{
    let m = magnitude(a);
    let q = round_up_div(m, b);
    lemma_fundamental_div_mod(2 * m + b, 2 * b);
    assert(2 * b * q == 2 * (q * b)) by (nonlinear_arith);
    assert(q >= 0) by (nonlinear_arith)
        requires
            q == (2 * m + b) / (2 * b),
            m >= 0,
            b > 0,
    ;
    assert((-q) * b == -(q * b)) by (nonlinear_arith);
    if a == 0 {
        lemma_fundamental_div_mod_converse(b, 2 * b, 0, b);
    }
}

/// Rounding a multiple of the step changes nothing.
pub proof fn lemma_round_to_multiple(k: int, step: int)
    requires
        step > 0,
    ensures
        round_div(k * step, step) == k,
        round_to(k * step, step) == k * step,
{
    let m = magnitude(k);
    assert(magnitude(k * step) == m * step) by (nonlinear_arith)
        requires
            step > 0,
            m == magnitude(k),
    ;
    assert(k * step >= 0 <==> k >= 0) by (nonlinear_arith)
        requires
            step > 0,
    ;
    assert(2 * (m * step) + step == m * (2 * step) + step) by (nonlinear_arith);
    lemma_fundamental_div_mod_converse(2 * (m * step) + step, 2 * step, m, step);
}

/// Divides to the nearest whole, halves away from zero.
pub fn divide_rounded(a: i128, b: i128) -> (r: i128)
    requires
        b > 0,
        -0x4000_0000_0000_0000_0000_0000_0000_0000 <= a <= 0x4000_0000_0000_0000_0000_0000_0000_0000,
        b <= 0x4000_0000_0000_0000_0000_0000_0000_0000,
    ensures
        r == round_div(a as int, b as int),
        a >= 0 ==> 0 <= r <= a,
        a <= 0 ==> a <= r <= 0,
{
    let m: u128 = if a >= 0 {
        a as u128
    } else {
        (-a) as u128
    };
    let d: u128 = b as u128;
    let q: u128 = (2 * m + d) / (2 * d);
    proof {
        lemma_fundamental_div_mod(2 * m + d, 2 * d as int);
        assert(q <= m) by (nonlinear_arith)
            requires
                q == (2 * m + d) / (2 * d as int),
                d > 0,
                m >= 0,
        ;
    }
    if a >= 0 {
        q as i128
    } else {
        -(q as i128)
    }
}

/// Rounds to the nearest multiple of `step`, halves away from zero.
pub fn round_to_step(x: i128, step: i128) -> (r: i128)
    requires
        near_range(x as int),
        0 < step <= LIMIT,
    ensures
        r == round_to(x as int, step as int),
        2 * distance(r as int, x as int) <= step,
        x >= 0 ==> r >= 0,
        x <= 0 ==> r <= 0,
{
    let q = divide_rounded(x, step);
    proof {
        lemma_round_div(x as int, step as int);
        assert(x >= 0 ==> q * step >= 0) by (nonlinear_arith)
            requires
                x >= 0 ==> q >= 0,
                step > 0,
        ;
        assert(x <= 0 ==> q * step <= 0) by (nonlinear_arith)
            requires
                x <= 0 ==> q <= 0,
                step > 0,
        ;
    }
    q * step
}

/// Multiplies two amounts.
pub fn multiply(a: i128, b: i128) -> (r: i128)
    requires
        in_range(a as int),
        in_range(b as int),
    ensures
        r == product(a as int, b as int),
        in_range(r as int),
{
    let x = unsigned(a);
    let y = unsigned(b);
    proof {
        lemma_signed_product(x as int, a < 0, y as int, b < 0);
        lemma_powers_of_scale();
    }
    round_signed(&Wide::new(x).times(y), (a < 0) != (b < 0), 1)
}

/// A letter in lower case.
pub open spec fn lower(c: char) -> char {
    if 'A' <= c <= 'Z' {
        (c as u8 + 32) as char
    } else {
        c
    }
}

/// `s` is the word `word`, in letters of either case.
pub open spec fn is_word(s: Seq<char>, word: Seq<char>) -> bool {
    s.map_values(|c: char| lower(c)) == word
}

/// `s` without the sign in front of it.
pub open spec fn without_mark(s: Seq<char>) -> Seq<char> {
    if s.len() > 0 && (s[0] == '-' || s[0] == '+') {
        s.skip(1)
    } else {
        s
    }
}

/// `s` says that it is not a number.
pub open spec fn says_nan(s: Seq<char>) -> bool {
    is_word(without_mark(s), "nan"@)
}

/// `s` says an infinity.
pub open spec fn says_infinity(s: Seq<char>) -> bool {
    is_word(without_mark(s), "inf"@) || is_word(without_mark(s), "infinity"@)
}

/// The position of the exponent mark in `s`, or the length of `s` where there is none.
pub open spec fn exponent_position(s: Seq<char>) -> int {
    least(first_position(s, 'e') as int, first_position(s, 'E') as int)
}

/// The exponent that `s` writes: a sign or none, then digits.
pub open spec fn exponent_of(s: Seq<char>) -> Option<int> {
    let signed = s.len() > 0 && (s[0] == '-' || s[0] == '+');
    let body = if signed {
        s.skip(1)
    } else {
        s
    };
    if body.len() == 0 || !all_digits(body) {
        None
    } else if signed && s[0] == '-' {
        Some(-(digits_value(body) as int))
    } else {
        Some(digits_value(body) as int)
    }
}

/// `value * 10^shift` to the nearest whole, halves up.
pub open spec fn shifted(value: nat, shift: int) -> int {
    if shift >= 0 {
        (value * ten_to(shift as nat)) as int
    } else {
        round_up_div(value as int, ten_to((-shift) as nat) as int)
    }
}

/// The digits before and behind the point of `s`, put together.
pub open spec fn point_digits(s: Seq<char>) -> Seq<char> {
    let p = first_position(s, '.') as int;
    if p < s.len() {
        s.take(p) + s.skip(p + 1)
    } else {
        s
    }
}

/// The number of characters behind the point of `s`.
pub open spec fn point_decimals(s: Seq<char>) -> int {
    let p = first_position(s, '.') as int;
    if p < s.len() {
        s.len() - p - 1
    } else {
        0
    }
}

/// The units of a decimal number without a sign: digits with a point or none among
/// them, then an exponent or none.
pub open spec fn unsigned_units(s: Seq<char>) -> Option<int> {
    let e = exponent_position(s);
    let mantissa = s.take(e);
    let digits = point_digits(mantissa);
    let exponent = if e < s.len() {
        exponent_of(s.skip(e + 1))
    } else {
        Some(0)
    };
    if digits.len() == 0 || !all_digits(digits) {
        None
    } else {
        match exponent {
            None => None,
            Some(x) => Some(shifted(digits_value(digits), x - point_decimals(mantissa) + DECIMALS)),
        }
    }
}

/// The amount that a text writes: a decimal number to the nearest unit, halves away
/// from zero, or an infinity, cut off at the limits.
pub open spec fn amount_of(s: Seq<char>) -> Option<int> {
    let signed = s.len() > 0 && (s[0] == '-' || s[0] == '+');
    let body = if signed {
        s.skip(1)
    } else {
        s
    };
    let units = if is_word(body, "inf"@) || is_word(body, "infinity"@) {
        Some(LIMIT as int)
    } else {
        unsigned_units(body)
    };
    match units {
        None => None,
        Some(u) => Some(
            clamp(
                if signed && s[0] == '-' {
                    -u
                } else {
                    u
                },
            ),
        ),
    }
}

/// The amount that a text writes, or zero.
pub open spec fn amount_or_zero(s: Seq<char>) -> int {
    match amount_of(s) {
        Some(u) => u,
        None => 0,
    }
}

pub proof fn lemma_ten_to_positive(m: nat)
    ensures
        ten_to(m) >= 1,
    decreases m,
{
    if m > 0 {
        lemma_ten_to_positive((m - 1) as nat);
    }
}

pub proof fn lemma_ten_to_adds(a: nat, b: nat)
    ensures
        ten_to(a + b) == ten_to(a) * ten_to(b),
    decreases a,
{
    if a > 0 {
        lemma_ten_to_adds((a - 1) as nat, b);
        lemma_mul_is_associative(10, ten_to((a - 1) as nat) as int, ten_to(b) as int);
        assert((a + b - 1) as nat == (a - 1) as nat + b);
    } else {
        assert(ten_to(a) * ten_to(b) == ten_to(b)) by (nonlinear_arith)
            requires
                ten_to(a) == 1,
        ;
    }
}

pub proof fn lemma_digits_bound(s: Seq<char>)
    requires
        all_digits(s),
    ensures
        digits_value(s) < ten_to(s.len()),
    decreases s.len(),
{
    if s.len() > 0 {
        let front = s.drop_last();
        assert forall|i: int| 0 <= i < front.len() implies is_digit(#[trigger] front[i]) by {
            assert(front[i] == s[i]);
        }
        lemma_digits_bound(front);
        assert(is_digit(s[s.len() - 1]));
    }
}

pub proof fn lemma_digits_concat(a: Seq<char>, b: Seq<char>)
    ensures
        digits_value(a + b) == digits_value(a) * ten_to(b.len()) + digits_value(b),
    decreases b.len(),
{
    if b.len() == 0 {
        assert(a + b == a);
        assert(digits_value(a) * ten_to(b.len()) == digits_value(a)) by (nonlinear_arith)
            requires
                ten_to(b.len()) == 1,
        ;
    } else {
        let front = b.drop_last();
        lemma_digits_concat(a, front);
        assert((a + b).drop_last() == a + front);
        assert((a + b).last() == b.last());
        let t = ten_to(front.len()) as int;
        let va = digits_value(a) as int;
        assert((va * t) * 10 == va * (10 * t)) by (nonlinear_arith);
    }
}

/// The nearest whole of `digits / 10^dropped`: the leading digits, plus one where the
/// first digit that is dropped is five or more.
proof fn lemma_shift_down(digits: Seq<char>, dropped: nat)
    requires
        all_digits(digits),
        1 <= dropped <= digits.len(),
    ensures
        ({
            let keep = digits.len() - dropped;
            shifted(digits_value(digits), -dropped) == digits_value(digits.take(keep)) + if digits[keep]
                >= '5' {
                1int
            } else {
                0
            }
        }),
{
    let keep = digits.len() - dropped;
    let a = digits.take(keep);
    let b = digits.skip(keep);
    assert(a + b == digits);
    assert forall|i: int| 0 <= i < b.len() implies is_digit(#[trigger] b[i]) by {
        assert(b[i] == digits[keep + i]);
    }
    lemma_digits_concat(a, b);
    let head = seq![b[0]];
    let tail = b.skip(1);
    assert(head + tail == b);
    assert forall|i: int| 0 <= i < tail.len() implies is_digit(#[trigger] tail[i]) by {
        assert(tail[i] == b[i + 1]);
    }
    lemma_digits_concat(head, tail);
    lemma_digits_bound(tail);
    assert(head.drop_last().len() == 0);
    assert(digits_value(head.drop_last()) == 0);
    let d = (b[0] as nat - 48) as int;
    assert(head.last() == b[0]);
    assert(digits_value(head) == d);
    assert(is_digit(b[0]));
    let t = ten_to(tail.len()) as int;
    let vt = digits_value(tail) as int;
    let vb = digits_value(b) as int;
    let va = digits_value(a) as int;
    let full = ten_to(dropped) as int;
    assert(full == 10 * t);
    assert(vb == d * t + vt);
    lemma_ten_to_positive(tail.len());
    assert(d >= 5 ==> vb >= 5 * t) by (nonlinear_arith)
        requires
            vb == d * t + vt,
            vt >= 0,
            t >= 1,
    ;
    assert(d <= 4 ==> vb < 5 * t) by (nonlinear_arith)
        requires
            vb == d * t + vt,
            vt < t,
            t >= 1,
    ;
    assert(vb < full) by (nonlinear_arith)
        requires
            vb == d * t + vt,
            0 <= d <= 9,
            vt < t,
            t >= 1,
            full == 10 * t,
    ;
    assert(2 * (va * full + vb) + full == (2 * vb + full) + va * (2 * full)) by (nonlinear_arith);
    lemma_hoist_over_denominator(2 * vb + full, va, (2 * full) as nat);
    if d >= 5 {
        lemma_fundamental_div_mod_converse(2 * vb + full, 2 * full, 1, 2 * vb - full);
    } else {
        lemma_fundamental_div_mod_converse(2 * vb + full, 2 * full, 0, 2 * vb + full);
    }
}

/// Where more digits are dropped than there are, nothing is left.
proof fn lemma_shift_out(digits: Seq<char>, dropped: nat)
    requires
        all_digits(digits),
        dropped > digits.len(),
    ensures
        shifted(digits_value(digits), -dropped) == 0,
{
    lemma_digits_bound(digits);
    let more = (dropped - 1 - digits.len()) as nat;
    lemma_ten_to_adds(digits.len(), more);
    lemma_ten_to_positive(more);
    let v = digits_value(digits) as int;
    let small = ten_to(digits.len()) as int;
    assert(ten_to((dropped - 1) as nat) >= small) by (nonlinear_arith)
        requires
            ten_to((dropped - 1) as nat) == ten_to(digits.len()) * ten_to(more),
            ten_to(more) >= 1,
            small == ten_to(digits.len()),
    ;
    let t = ten_to(dropped) as int;
    lemma_fundamental_div_mod_converse(2 * v + t, 2 * t, 0, 2 * v + t);
}

/// The limit is `10^28`.
proof fn lemma_limit_is_a_power()
    ensures
        ten_to(28) == LIMIT,
{
    assert(ten_to(7) == 10_000_000) by {
        reveal_with_fuel(ten_to, 8);
    }
    lemma_ten_to_adds(7, 7);
    assert(10_000_000int * 10_000_000 == 100_000_000_000_000) by (nonlinear_arith);
    assert(ten_to(14) == 100_000_000_000_000);
    lemma_ten_to_adds(14, 14);
    assert(100_000_000_000_000int * 100_000_000_000_000 == LIMIT) by (nonlinear_arith);
    assert(ten_to(28) == ten_to(14) * ten_to(14));
}

/// A product is no less than one factor where the others are at least one.
proof fn lemma_product_is_no_less(v: int, a: int, b: int)
    by (nonlinear_arith)
    requires
        v >= 1,
        a >= 0,
        b >= 1,
    ensures
        v * (a * b) >= a,
{
}

/// Multiplying by `10^28` or more takes any number but zero to the limit.
proof fn lemma_shift_far(value: nat, shift: int)
    requires
        shift >= 28,
    ensures
        value == 0 ==> shifted(value, shift) == 0,
        value > 0 ==> shifted(value, shift) >= LIMIT,
{
    let more = (shift - 28) as nat;
    lemma_ten_to_adds(28, more);
    lemma_ten_to_positive(more);
    lemma_limit_is_a_power();
    if value > 0 {
        lemma_product_is_no_less(value as int, ten_to(28) as int, ten_to(more) as int);
    }
}

/// Is `x[from..]` the word `word`, in letters of either case?
fn is_word_at(x: &[char], from: usize, word: &str) -> (r: bool)
    requires
        from <= x@.len(),
    ensures
        r == is_word(x@.skip(from as int), word@),
{
    let w = chars_of(word);
    let ghost lowered = x@.skip(from as int).map_values(|c: char| lower(c));
    if x.len() - from != w.len() {
        return false;
    }
    let mut i: usize = 0;
    while i < w.len()
        invariant
            w@ == word@,
            i <= w@.len(),
            from + w@.len() == x@.len() <= usize::MAX,
            lowered == x@.skip(from as int).map_values(|c: char| lower(c)),
            forall|j: int| 0 <= j < i ==> lowered[j] == word@[j],
        decreases w@.len() - i,
    {
        let c: char = x[from + i];
        let l: char = if 'A' <= c && c <= 'Z' {
            (c as u8 + 32) as char
        } else {
            c
        };
        assert(lowered[i as int] == l);
        if l != w[i] {
            return false;
        }
        i = i + 1;
    }
    assert(lowered == word@);
    true
}

/// Where an exponent is cut off: beyond the length of any text.
spec fn exponent_cap() -> int {
    0x100_0000_0000_0000_0000
}

/// Reads `x[from..]` as an exponent, cut off at `exponent_cap`.
fn read_exponent(x: &[char], from: usize) -> (r: Option<i128>)
    requires
        from <= x@.len(),
    ensures
        r is Some <==> exponent_of(x@.skip(from as int)) is Some,
        r matches Some(e) ==> {
            let exact = exponent_of(x@.skip(from as int))->0;
            e == if exact > exponent_cap() {
                exponent_cap()
            } else if exact < -exponent_cap() {
                -exponent_cap()
            } else {
                exact
            }
        },
{
    let ghost whole = x@.skip(from as int);
    let signed = from < x.len() && (x[from] == '-' || x[from] == '+');
    let start: usize = if signed {
        from + 1
    } else {
        from
    };
    let ghost body = if signed {
        whole.skip(1)
    } else {
        whole
    };
    assert(x@.subrange(start as int, x@.len() as int) == body);
    if start == x.len() {
        return None;
    }
    match read_digits(x, start, x.len(), 0x100_0000_0000_0000_0000) {
        Some(v) => if signed && x[from] == '-' {
            Some(-(v as i128))
        } else {
            Some(v as i128)
        },
        None => None,
    }
}

/// Multiplies the number that `digits` write by `10^shift`, to the nearest whole, cut
/// off at the limit.
fn shift_digits(digits: &Vec<char>, shift: i128) -> (r: u128)
    requires
        all_digits(digits@),
        -0x1000_0000_0000_0000_0000 <= shift <= 0x1000_0000_0000_0000_0000,
    ensures
        r == least(shifted(digits_value(digits@), shift as int), LIMIT as int),
{
    let n: usize = digits.len();
    let ghost value = digits_value(digits@) as int;
    assert(digits@.subrange(0, n as int) == digits@);
    if shift >= 0 {
        let mut v: u128 = match read_digits(digits.as_slice(), 0, n, LIMIT as u128) {
            Some(v) => v,
            None => 0,
        };
        let mut i: i128 = 0;
        assert(value * ten_to(0) == value) by (nonlinear_arith)
            requires
                ten_to(0) == 1,
        ;
        while i < shift && v > 0 && v < LIMIT as u128
            invariant
                0 <= i <= shift,
                value >= 0,
                v == least(value * ten_to(i as nat), LIMIT as int),
            decreases shift - i,
        {
            v = if v * 10 < LIMIT as u128 {
                v * 10
            } else {
                LIMIT as u128
            };
            i = i + 1;
            assert(value * ten_to(i as nat) == 10 * (value * ten_to((i - 1) as nat)))
                by (nonlinear_arith)
                requires
                    ten_to(i as nat) == 10 * ten_to((i - 1) as nat),
            ;
        }
        proof {
            lemma_ten_to_adds(i as nat, (shift - i) as nat);
            lemma_ten_to_positive(i as nat);
            lemma_ten_to_positive((shift - i) as nat);
            let near = ten_to(i as nat) as int;
            let rest = ten_to((shift - i) as nat) as int;
            assert(value * (near * rest) >= value * near) by (nonlinear_arith)
                requires
                    value >= 0,
                    near >= 1,
                    rest >= 1,
            ;
            assert(value * near == 0 ==> value * (near * rest) == 0) by (nonlinear_arith)
                requires
                    near >= 1,
            ;
        }
        return v;
    }
    let dropped: i128 = -shift;
    if dropped > n as i128 {
        proof {
            lemma_shift_out(digits@, dropped as nat);
        }
        return 0;
    }
    let keep: usize = n - dropped as usize;
    proof {
        lemma_shift_down(digits@, dropped as nat);
        let front = digits@.take(keep as int);
        assert(digits@.subrange(0, keep as int) == front);
        assert forall|i: int| 0 <= i < front.len() implies is_digit(#[trigger] front[i]) by {
            assert(front[i] == digits@[i]);
        }
    }
    let front: u128 = match read_digits(digits.as_slice(), 0, keep, LIMIT as u128) {
        Some(v) => v,
        None => 0,
    };
    let up: u128 = if digits[keep] >= '5' {
        1
    } else {
        0
    };
    if front + up < LIMIT as u128 {
        front + up
    } else {
        LIMIT as u128
    }
}

/// The characters `x[from..to]`.
fn copy_chars(x: &[char], from: usize, to: usize) -> (v: Vec<char>)
    requires
        from <= to <= x@.len(),
    ensures
        v@ == x@.subrange(from as int, to as int),
{
    let mut v: Vec<char> = Vec::new();
    let mut i: usize = from;
    while i < to
        invariant
            from <= i <= to <= x@.len(),
            v@ == x@.subrange(from as int, i as int),
        decreases to - i,
    {
        v.push(x[i]);
        i = i + 1;
        assert(x@.subrange(from as int, i as int) == x@.subrange(from as int, i - 1).push(
            x@[i - 1],
        ));
    }
    v
}

/// The digits of a mantissa, and how many of them stand behind the point.
fn mantissa_digits(mantissa: &Vec<char>) -> (r: (Vec<char>, usize))
    ensures
        r.0@ == point_digits(mantissa@),
        r.1 == point_decimals(mantissa@),
{
    let n: usize = mantissa.len();
    let dot: usize = find_char(mantissa.as_slice(), 0, '.');
    assert(mantissa@.skip(0) == mantissa@);
    if dot == n {
        assert(mantissa@.subrange(0, n as int) == mantissa@);
        return (copy_chars(mantissa.as_slice(), 0, n), 0);
    }
    let mut digits = copy_chars(mantissa.as_slice(), 0, dot);
    let mut decimals = copy_chars(mantissa.as_slice(), dot + 1, n);
    assert(mantissa@.subrange(0, dot as int) == mantissa@.take(dot as int));
    assert(mantissa@.subrange(dot + 1, n as int) == mantissa@.skip(dot + 1));
    digits.append(&mut decimals);
    (digits, n - dot - 1)
}

/// Cutting an exponent off changes nothing: the digits are shifted out, or to the limit,
/// either way.
proof fn lemma_exponent_cut_off(digits: Seq<char>, exact: int, cut: int, offset: int)
    requires
        all_digits(digits),
        digits.len() <= usize::MAX,
        -usize::MAX <= offset <= DECIMALS,
        cut == if exact > exponent_cap() {
            exponent_cap()
        } else if exact < -exponent_cap() {
            -exponent_cap()
        } else {
            exact
        },
    ensures
        least(shifted(digits_value(digits), cut + offset), LIMIT as int) == least(
            shifted(digits_value(digits), exact + offset),
            LIMIT as int,
        ),
{
    let value = digits_value(digits);
    if exact > exponent_cap() {
        lemma_shift_far(value, cut + offset);
        lemma_shift_far(value, exact + offset);
    } else if exact < -exponent_cap() {
        lemma_shift_out(digits, (-(cut + offset)) as nat);
        lemma_shift_out(digits, (-(exact + offset)) as nat);
    }
}

/// Reads `x[from..]` as a decimal number without a sign, in units, cut off at the limit.
fn read_unsigned(x: &[char], from: usize) -> (r: Option<u128>)
    requires
        from <= x@.len(),
    ensures
        r is Some <==> unsigned_units(x@.skip(from as int)) is Some,
        r matches Some(v) ==> v == least(
            unsigned_units(x@.skip(from as int))->0,
            LIMIT as int,
        ),
{
    let ghost whole = x@.skip(from as int);
    let small: usize = find_char(x, from, 'e');
    let big: usize = find_char(x, from, 'E');
    let e: usize = if small <= big {
        small
    } else {
        big
    };
    let mantissa = copy_chars(x, from, e);
    assert(mantissa@ == whole.take(e - from));
    let (digits, decimals) = mantissa_digits(&mantissa);
    if digits.len() == 0 {
        return None;
    }
    assert(digits@.subrange(0, digits@.len() as int) == digits@);
    if read_digits(digits.as_slice(), 0, digits.len(), 0).is_none() {
        return None;
    }
    let exponent: i128 = if e < x.len() {
        assert(whole.skip(e - from + 1) == x@.skip(e + 1));
        match read_exponent(x, e + 1) {
            Some(v) => v,
            None => {
                return None;
            },
        }
    } else {
        0
    };
    let shift: i128 = exponent - decimals as i128 + DECIMALS as i128;
    proof {
        let exact = if e < x@.len() {
            exponent_of(whole.skip(e - from + 1))->0
        } else {
            0
        };
        lemma_exponent_cut_off(digits@, exact, exponent as int, DECIMALS - decimals);
    }
    Some(shift_digits(&digits, shift))
}

/// Where a number begins behind its sign.
fn mark_end(x: &[char]) -> (p: usize)
    ensures
        p <= x@.len(),
        x@.skip(p as int) == without_mark(x@),
{
    if x.len() > 0 && (x[0] == '-' || x[0] == '+') {
        1
    } else {
        assert(x@.skip(0) == x@);
        0
    }
}

/// Does the text say that it is not a number?
pub fn is_nan(s: &str) -> (r: bool)
    ensures
        r == says_nan(s@),
{
    let x = chars_of(s);
    let start = mark_end(x.as_slice());
    is_word_at(x.as_slice(), start, "nan")
}

/// Does the text say an infinity?
pub fn is_infinity(s: &str) -> (r: bool)
    ensures
        r == says_infinity(s@),
{
    let x = chars_of(s);
    let start = mark_end(x.as_slice());
    is_word_at(x.as_slice(), start, "inf") || is_word_at(x.as_slice(), start, "infinity")
}

/// Reads an amount.
pub fn parse_amount(s: &str) -> (r: Option<i128>)
    ensures
        r is Some <==> amount_of(s@) is Some,
        r matches Some(v) ==> amount_of(s@) == Some(v as int) && in_range(v as int),
{
    let x = chars_of(s);
    let signed = x.len() > 0 && (x[0] == '-' || x[0] == '+');
    let start: usize = if signed {
        1
    } else {
        0
    };
    assert(s@.skip(0) == s@);
    let units: u128 = if is_word_at(x.as_slice(), start, "inf") || is_word_at(
        x.as_slice(),
        start,
        "infinity",
    ) {
        LIMIT as u128
    } else {
        match read_unsigned(x.as_slice(), start) {
            Some(v) => v,
            None => {
                return None;
            },
        }
    };
    proof {
        lemma_units_not_negative(s@.skip(start as int));
    }
    if signed && x[0] == '-' {
        Some(-(units as i128))
    } else {
        Some(units as i128)
    }
}

proof fn lemma_units_not_negative(s: Seq<char>)
    ensures
        unsigned_units(s) matches Some(u) ==> u >= 0,
{
    let e = exponent_position(s);
    let mantissa = s.take(e);
    let value = digits_value(point_digits(mantissa));
    if let Some(u) = unsigned_units(s) {
        let x = if e < s.len() {
            exponent_of(s.skip(e + 1))->0
        } else {
            0
        };
        let shift = x - point_decimals(mantissa) + DECIMALS;
        if shift < 0 {
            let t = ten_to((-shift) as nat) as int;
            lemma_ten_to_positive((-shift) as nat);
            assert((2 * value + t) / (2 * t) >= 0) by (nonlinear_arith)
                requires
                    value >= 0,
                    t >= 1,
            ;
        }
    }
}

/// Reads an amount; what is none counts as zero.
pub fn parse_or_zero(s: &str) -> (r: i128)
    ensures
        r == amount_or_zero(s@),
        in_range(r as int),
{
    match parse_amount(s) {
        Some(v) => v,
        None => 0,
    }
}

/// Rounding to a step gives a multiple of it, at most half a step away; exactly half a
/// step away it is the one further from zero.
pub proof fn law_rounding_is_to_the_nearest(x: int, step: int)
    requires
        step > 0,
    ensures
        exists|c: int| round_to(x, step) == #[trigger] (c * step),
        -step <= 2 * (round_to(x, step) - x) <= step,
        x >= 0 ==> 2 * (round_to(x, step) - x) > -step,
        x <= 0 ==> 2 * (round_to(x, step) - x) < step,
        -step <= 2 * (round_div(x, step) * step - x) <= step,
{
    lemma_round_div(x, step);
    assert(round_to(x, step) == round_div(x, step) * step);
    let m = magnitude(x);
    let q = round_up_div(m, step);
    lemma_fundamental_div_mod(2 * m + step, 2 * step);
    assert(2 * step * q == 2 * (q * step)) by (nonlinear_arith);
    assert((-q) * step == -(q * step)) by (nonlinear_arith);
}

/// Amounts are cut off at ten to the twenty-eighth units, and otherwise left alone.
pub proof fn law_cut_off(x: int)
    ensures
        -10_000_000_000_000_000_000_000_000_000 <= x <= 10_000_000_000_000_000_000_000_000_000
            ==> clamp(x) == x,
        x > 10_000_000_000_000_000_000_000_000_000 ==> clamp(x)
            == 10_000_000_000_000_000_000_000_000_000,
        x < -10_000_000_000_000_000_000_000_000_000 ==> clamp(x)
            == -10_000_000_000_000_000_000_000_000_000,
        in_range(clamp(x)),
{
}

/// Multiplying amounts: the product, to the nearest unit of ten to the minus tenth.
pub proof fn law_product_is_rounded_once(a: int, b: int)
    ensures
        -LIMIT < product(a, b) < LIMIT ==> -10_000_000_000 <= 2 * (product(a, b) * 10_000_000_000 - a
            * b) <= 10_000_000_000,
        a * b > 2 * LIMIT * 10_000_000_000 ==> product(a, b) == LIMIT,
        a * b < -2 * LIMIT * 10_000_000_000 ==> product(a, b) == -LIMIT,
        product(a, b) == product(b, a),
{
    lemma_round_div(a * b, SCALE as int);
    assert(a * b == b * a) by (nonlinear_arith);
}

/// Distances are differences without a sign.
pub proof fn law_distance(a: int, b: int)
    ensures
        distance(a, b) >= 0,
        distance(a, b) == a - b || distance(a, b) == b - a,
        magnitude(a) >= 0,
        magnitude(a) == a || magnitude(a) == -a,
{
}

/// A minus in front of a number negates it, a plus leaves it.
pub proof fn law_signs(s: Seq<char>)
    requires
        s.len() > 0,
        s[0] != '-' && s[0] != '+',
    ensures
        amount_of(seq!['+'] + s) == amount_of(s),
        amount_of(s) matches Some(x) ==> amount_of(seq!['-'] + s) == Some(-x),
        amount_of(s) is None ==> amount_of(seq!['-'] + s) is None,
{
    assert((seq!['+'] + s).skip(1) == s);
    assert((seq!['-'] + s).skip(1) == s);
}

/// The words for infinity, in letters of either case, are cut off at the limit; the word
/// for what is not a number is recognised, and nothing else of its length is.
pub proof fn law_words(a: char, b: char, c: char)
    ensures
        (a == 'n' || a == 'N') && (b == 'a' || b == 'A') && (c == 'n' || c == 'N') <==> says_nan(
            seq![a, b, c],
        ),
        (a == 'i' || a == 'I') && (b == 'n' || b == 'N') && (c == 'f' || c == 'F')
            ==> says_infinity(seq![a, b, c]) && amount_of(seq![a, b, c]) == Some(LIMIT as int),
{
    reveal_strlit("nan");
    reveal_strlit("inf");
    reveal_strlit("infinity");
    let s = seq![a, b, c];
    let l = s.map_values(|x: char| lower(x));
    assert("nan"@.len() == 3 && "nan"@[0] == 'n' && "nan"@[1] == 'a' && "nan"@[2] == 'n');
    assert("inf"@.len() == 3 && "inf"@[0] == 'i' && "inf"@[1] == 'n' && "inf"@[2] == 'f');
    assert(l.len() == 3 && l[0] == lower(a) && l[1] == lower(b) && l[2] == lower(c));
    if a == '-' || a == '+' {
        assert(s.skip(1).map_values(|x: char| lower(x)).len() == 2);
        assert(!is_word(s.skip(1), "nan"@));
    } else {
        assert(without_mark(s) == s);
        if lower(a) == 'n' && lower(b) == 'a' && lower(c) == 'n' {
            assert(l =~= "nan"@);
        }
        if lower(a) == 'i' && lower(b) == 'n' && lower(c) == 'f' {
            assert(l =~= "inf"@);
        }
    }
}

/// An exponent moves the point: digits, an `e` of either case and more digits make the
/// number times that power of ten.
pub proof fn law_exponent_moves_the_point(w: Seq<char>, x: Seq<char>, mark: char)
    requires
        w.len() > 0,
        x.len() > 0,
        forall|i: int| 0 <= i < w.len() ==> '0' <= #[trigger] w[i] <= '9',
        forall|i: int| 0 <= i < x.len() ==> '0' <= #[trigger] x[i] <= '9',
        mark == 'e' || mark == 'E',
    ensures
        amount_of(w + seq![mark] + x) == Some(
            clamp((digits_value(w) * ten_to((digits_value(x) + 10) as nat)) as int),
        ),
{
    let s = w + seq![mark] + x;
    let n = w.len() as int;
    assert(s[n] == mark);
    assert forall|i: int| 0 <= i < s.len() && i != n implies '0' <= #[trigger] s[i] <= '9' by {
        if i < n {
            assert(s[i] == w[i]);
        } else {
            assert(s[i] == x[i - n - 1]);
        }
    }
    lemma_first_position(s, 'e');
    lemma_first_position(s, 'E');
    assert(exponent_position(s) == n);
    assert(s.take(n) == w);
    assert(s.skip(n + 1) == x);
    lemma_first_position(w, '.');
    assert(first_position(w, '.') == w.len());
    assert(point_digits(w) == w);
    assert forall|i: int| 0 <= i < w.len() implies is_digit(#[trigger] w[i]) by {}
    assert forall|i: int| 0 <= i < x.len() implies is_digit(#[trigger] x[i]) by {}
    assert('0' <= x[0] <= '9');
    assert('0' <= s[0] <= '9');
    reveal_strlit("inf");
    reveal_strlit("infinity");
    assert("inf"@[0] == 'i' && "infinity"@[0] == 'i');
    assert(s.map_values(|c: char| lower(c))[0] == s[0]);
    lemma_ten_to_positive((digits_value(x) + 10) as nat);
}

/// What is read as a number consists of digits, a point, signs and an exponent mark, or is
/// a word for infinity.
pub proof fn law_only_numbers_are_read(s: Seq<char>, i: int)
    requires
        amount_of(s) is Some,
        !says_infinity(s),
        0 <= i < s.len(),
    ensures
        '0' <= s[i] <= '9' || s[i] == '.' || s[i] == '-' || s[i] == '+' || s[i] == 'e' || s[i]
            == 'E',
        exists|j: int| 0 <= j < s.len() && '0' <= #[trigger] s[j] <= '9',
{
    let body = without_mark(s);
    let off: int = if body.len() < s.len() {
        1
    } else {
        0
    };
    assert(unsigned_units(body) is Some);
    let e = exponent_position(body);
    lemma_first_position(body, 'e');
    lemma_first_position(body, 'E');
    let mantissa = body.take(e);
    let digits = point_digits(mantissa);
    lemma_first_position(mantissa, '.');
    let p = first_position(mantissa, '.') as int;
    assert(is_digit(digits[0]));
    if p < mantissa.len() {
        if p > 0 {
            assert(digits[0] == mantissa[0] && mantissa[0] == s[off]);
        } else {
            assert(digits[0] == mantissa[1] && mantissa[1] == s[off + 1]);
        }
    } else {
        assert(digits[0] == mantissa[0] && mantissa[0] == s[off]);
    }
    let k = i - off;
    if k >= 0 && k < e {
        assert(mantissa[k] == s[i]);
        if p < mantissa.len() {
            if k < p {
                assert(digits[k] == mantissa[k]);
                assert(is_digit(digits[k]));
            } else if k > p {
                assert(digits[k - 1] == mantissa[k]);
                assert(is_digit(digits[k - 1]));
            }
        } else {
            assert(digits[k] == mantissa[k]);
            assert(is_digit(digits[k]));
        }
    } else if k > e {
        let x = body.skip(e + 1);
        assert(x[k - e - 1] == s[i]);
        let signed = x.len() > 0 && (x[0] == '-' || x[0] == '+');
        let rest = if signed {
            x.skip(1)
        } else {
            x
        };
        assert(all_digits(rest));
        if signed && k - e - 1 > 0 {
            assert(rest[k - e - 2] == s[i]);
            assert(is_digit(rest[k - e - 2]));
        } else if !signed {
            assert(is_digit(rest[k - e - 1]));
        }
    }
}

/// Two texts are the same word, in letters of either case, where they have the same
/// letters, each of them small or the capital of the small one.
pub proof fn law_word_in_either_case(s: Seq<char>, word: Seq<char>)
    requires
        forall|i: int| 0 <= i < word.len() ==> 'a' <= #[trigger] word[i] <= 'z',
    ensures
        is_word(s, word) <==> s.len() == word.len() && forall|i: int|
            0 <= i < s.len() ==> #[trigger] s[i] == word[i] || s[i] as int == word[i] as int - 32,
        s.len() > 0 && s[0] != '-' && s[0] != '+' ==> (says_nan(s) <==> is_word(s, "nan"@))
            && says_nan(seq!['-'] + s) == says_nan(s) && says_nan(seq!['+'] + s) == says_nan(s)
            && (says_infinity(s) <==> is_word(s, "inf"@) || is_word(s, "infinity"@))
            && says_infinity(seq!['-'] + s) == says_infinity(s) && says_infinity(seq!['+'] + s)
            == says_infinity(s),
        is_word(s, "inf"@) || is_word(s, "infinity"@) ==> amount_of(s) == Some(LIMIT as int),
        is_word(s, "nan"@) ==> amount_of(s) is None,
{
    let l = s.map_values(|c: char| lower(c));
    assert(l.len() == s.len());
    assert forall|i: int| 0 <= i < s.len() implies #[trigger] l[i] == lower(s[i]) by {}
    if is_word(s, word) {
        assert forall|i: int| 0 <= i < s.len() implies #[trigger] s[i] == word[i] || s[i] as int
            == word[i] as int - 32 by {
            assert(l[i] == word[i]);
        }
    }
    if s.len() == word.len() && forall|i: int|
        0 <= i < s.len() ==> #[trigger] s[i] == word[i] || s[i] as int == word[i] as int - 32 {
        assert forall|i: int| 0 <= i < s.len() implies #[trigger] l[i] == word[i] by {
            assert('a' <= word[i] <= 'z');
            assert(s[i] == word[i] || s[i] as int == word[i] as int - 32);
        }
        assert(l =~= word);
    }
    assert((seq!['-'] + s).skip(1) == s);
    assert((seq!['+'] + s).skip(1) == s);
    reveal_strlit("inf");
    reveal_strlit("infinity");
    reveal_strlit("nan");
    assert("inf"@[0] == 'i' && "infinity"@[0] == 'i');
    assert("nan"@.len() == 3 && "nan"@[0] == 'n' && "nan"@[1] == 'a');
    if is_word(s, "inf"@) || is_word(s, "infinity"@) {
        assert(l[0] == 'i');
        assert(s[0] != '-' && s[0] != '+');
    }
    if is_word(s, "nan"@) {
        assert(l[0] == 'n');
        assert(s[0] == 'n' || s[0] == 'N');
        assert(l[1] == 'a');
        if unsigned_units(s) is Some {
            law_only_numbers_are_read(s, 0);
        }
    }
}

/// The digits of a mantissa.
proof fn lemma_mantissa(w: Seq<char>, f: Seq<char>)
    requires
        all_digits(w),
        all_digits(f),
    ensures
        point_digits(w + seq!['.'] + f) == w + f,
        point_decimals(w + seq!['.'] + f) == f.len(),
        all_digits(w + f),
        forall|i: int|
            0 <= i < (w + seq!['.'] + f).len() ==> #[trigger] (w + seq!['.'] + f)[i] != 'e' && (w
                + seq!['.'] + f)[i] != 'E',
{
    let s = w + seq!['.'] + f;
    let n = w.len() as int;
    assert(s[n] == '.');
    assert forall|i: int| 0 <= i < s.len() && i != n implies is_digit(#[trigger] s[i]) by {
        if i < n {
            assert(s[i] == w[i]);
            assert(is_digit(w[i]));
        } else {
            assert(s[i] == f[i - n - 1]);
            assert(is_digit(f[i - n - 1]));
        }
    }
    lemma_first_position(s, '.');
    let p = first_position(s, '.') as int;
    assert(p == n) by {
        if p < n {
            assert(is_digit(s[p]));
        }
    }
    assert(s.take(n) == w);
    assert(s.skip(n + 1) == f);
    assert forall|i: int| 0 <= i < (w + f).len() implies is_digit(#[trigger] (w + f)[i]) by {
        if i < n {
            assert(is_digit(w[i]));
        } else {
            assert(is_digit(f[i - n]));
        }
    }
    assert forall|i: int| 0 <= i < s.len() implies #[trigger] s[i] != 'e' && s[i] != 'E' by {
        if i != n {
            assert(is_digit(s[i]));
        }
    }
}

/// Digits with a point, an `e` of either case, a sign or none and more digits: the digits
/// times the power of ten that the exponent and the place of the point give, to the
/// nearest unit, halves up, cut off at the limit.
pub proof fn law_number_with_point_and_exponent(
    w: Seq<char>,
    f: Seq<char>,
    mark: char,
    sign: Seq<char>,
    x: Seq<char>,
)
    requires
        w.len() + f.len() > 0,
        x.len() > 0,
        forall|i: int| 0 <= i < w.len() ==> '0' <= #[trigger] w[i] <= '9',
        forall|i: int| 0 <= i < f.len() ==> '0' <= #[trigger] f[i] <= '9',
        forall|i: int| 0 <= i < x.len() ==> '0' <= #[trigger] x[i] <= '9',
        mark == 'e' || mark == 'E',
        sign == seq!['-'] || sign == seq!['+'] || sign.len() == 0,
    ensures
        ({
            let exponent = if sign == seq!['-'] {
                -digits_value(x)
            } else {
                digits_value(x) as int
            };
            let shift = exponent - f.len() + 10;
            let v = digits_value(w + f) as int;
            let r = amount_of(w + seq!['.'] + f + seq![mark] + sign + x);
            &&& r is Some
            &&& shift >= 0 ==> r->0 == clamp(v * ten_to(shift as nat))
            &&& shift < 0 ==> {
                let t = ten_to((-shift) as nat) as int;
                exists|m: int| r->0 == #[trigger] clamp(m) && -t < 2 * (m * t - v) <= t
            }
        }),
{
    assert forall|i: int| 0 <= i < w.len() implies is_digit(#[trigger] w[i]) by {}
    assert forall|i: int| 0 <= i < f.len() implies is_digit(#[trigger] f[i]) by {}
    assert forall|i: int| 0 <= i < x.len() implies is_digit(#[trigger] x[i]) by {}
    lemma_mantissa(w, f);
    let mantissa = w + seq!['.'] + f;
    let tail = sign + x;
    let s = mantissa + seq![mark] + sign + x;
    assert(s == mantissa + seq![mark] + tail);
    let n = mantissa.len() as int;
    assert(s[n] == mark);
    assert forall|i: int| 0 <= i < n implies #[trigger] s[i] != 'e' && s[i] != 'E' by {
        assert(s[i] == mantissa[i]);
    }
    lemma_first_position(s, 'e');
    lemma_first_position(s, 'E');
    assert(exponent_position(s) == n) by {
        let a = first_position(s, 'e') as int;
        let b = first_position(s, 'E') as int;
        assert(a >= n && b >= n);
    }
    assert(s.take(n) == mantissa);
    assert(s.skip(n + 1) == tail);
    assert('0' <= x[0] <= '9');
    if sign.len() == 0 {
        assert(tail == x);
    } else {
        assert(sign.len() == 1);
        assert(tail.skip(1) == x);
        assert(tail[0] == sign[0]);
    }
    let exponent = if sign == seq!['-'] {
        -digits_value(x)
    } else {
        digits_value(x) as int
    };
    if sign == seq!['-'] {
        assert(sign[0] == '-');
    } else if sign == seq!['+'] {
        assert(sign[0] == '+');
    }
    assert(exponent_of(tail) == Some(exponent));
    assert((w + f).len() > 0);
    if w.len() > 0 {
        assert(s[0] == w[0]);
    } else {
        assert(s[0] == '.');
    }
    reveal_strlit("inf");
    reveal_strlit("infinity");
    assert("inf"@[0] == 'i' && "infinity"@[0] == 'i');
    assert(s.map_values(|c: char| lower(c))[0] == s[0]);
    let shift = exponent - f.len() + 10;
    let v = digits_value(w + f) as int;
    if shift < 0 {
        let t = ten_to((-shift) as nat) as int;
        lemma_ten_to_positive((-shift) as nat);
        let m = round_up_div(v, t);
        lemma_fundamental_div_mod(2 * v + t, 2 * t);
        assert(2 * t * m == 2 * (m * t)) by (nonlinear_arith);
        assert(amount_of(s) == Some(clamp(m)));
    }
}

/// Digits with a point and no exponent, or digits alone: the number they write, to the
/// nearest unit, halves up, cut off at the limit.
pub proof fn law_number_without_exponent(w: Seq<char>, f: Seq<char>)
    requires
        w.len() + f.len() > 0,
        forall|i: int| 0 <= i < w.len() ==> '0' <= #[trigger] w[i] <= '9',
        forall|i: int| 0 <= i < f.len() ==> '0' <= #[trigger] f[i] <= '9',
    ensures
        ({
            let v = digits_value(w + f) as int;
            let r = amount_of(w + seq!['.'] + f);
            &&& r is Some
            &&& f.len() <= 10 ==> r->0 == clamp(v * ten_to((10 - f.len()) as nat))
            &&& f.len() > 10 ==> {
                let t = ten_to((f.len() - 10) as nat) as int;
                exists|m: int| r->0 == #[trigger] clamp(m) && -t < 2 * (m * t - v) <= t
            }
        }),
{
    assert forall|i: int| 0 <= i < w.len() implies is_digit(#[trigger] w[i]) by {}
    assert forall|i: int| 0 <= i < f.len() implies is_digit(#[trigger] f[i]) by {}
    lemma_mantissa(w, f);
    let s = w + seq!['.'] + f;
    lemma_first_position(s, 'e');
    lemma_first_position(s, 'E');
    assert(exponent_position(s) == s.len());
    assert(s.take(s.len() as int) == s);
    assert((w + f).len() > 0);
    if w.len() > 0 {
        assert(s[0] == w[0]);
    } else {
        assert(s[0] == '.');
    }
    reveal_strlit("inf");
    reveal_strlit("infinity");
    assert("inf"@[0] == 'i' && "infinity"@[0] == 'i');
    assert(s.map_values(|c: char| lower(c))[0] == s[0]);
    let v = digits_value(w + f) as int;
    if f.len() > 10 {
        let t = ten_to((f.len() - 10) as nat) as int;
        lemma_ten_to_positive((f.len() - 10) as nat);
        let m = round_up_div(v, t);
        lemma_fundamental_div_mod(2 * v + t, 2 * t);
        assert(2 * t * m == 2 * (m * t)) by (nonlinear_arith);
        assert(amount_of(s) == Some(clamp(m)));
    }
}

/// A text with two points, with a point or a second mark behind the exponent mark, with a
/// sign that stands neither first nor right behind that mark, or that ends in a mark or a
/// sign is no number.
pub proof fn law_malformed_numbers_are_refused(s: Seq<char>, i: int, j: int)
    requires
        amount_of(s) is Some,
        !says_infinity(s),
        0 <= i < j < s.len(),
    ensures
        !(s[i] == '.' && s[j] == '.'),
        !((s[i] == 'e' || s[i] == 'E') && s[j] == '.'),
        !((s[i] == 'e' || s[i] == 'E') && (s[j] == 'e' || s[j] == 'E')),
        s[j] == '-' || s[j] == '+' ==> s[j - 1] == 'e' || s[j - 1] == 'E',
        s.last() != 'e' && s.last() != 'E' && s.last() != '-' && s.last() != '+',
{
    let body = without_mark(s);
    let o: int = if body.len() < s.len() {
        1
    } else {
        0
    };
    assert forall|k: int| 0 <= k < body.len() implies #[trigger] body[k] == s[k + o] by {}
    assert(unsigned_units(body) is Some);
    let e = exponent_position(body);
    lemma_first_position(body, 'e');
    lemma_first_position(body, 'E');
    let mantissa = body.take(e);
    let digits = point_digits(mantissa);
    lemma_first_position(mantissa, '.');
    let p = first_position(mantissa, '.') as int;
    // Behind the point, and before it, the mantissa holds digits alone.
    assert forall|k: int| 0 <= k < e && k != p implies is_digit(#[trigger] body[k]) by {
        assert(mantissa[k] == body[k]);
        if p < mantissa.len() {
            if k < p {
                assert(digits[k] == mantissa[k]);
                assert(is_digit(digits[k]));
            } else {
                assert(digits[k - 1] == mantissa[k]);
                assert(is_digit(digits[k - 1]));
            }
        } else {
            assert(digits[k] == mantissa[k]);
            assert(is_digit(digits[k]));
        }
    }
    if p < e {
        assert(mantissa[p] == body[p]);
    }
    if e < body.len() {
        let x = body.skip(e + 1);
        let signed = x.len() > 0 && (x[0] == '-' || x[0] == '+');
        let rest = if signed {
            x.skip(1)
        } else {
            x
        };
        assert(all_digits(rest) && rest.len() > 0);
        assert forall|k: int| e + 1 < k < body.len() implies is_digit(#[trigger] body[k]) by {
            if signed {
                assert(rest[k - e - 2] == body[k]);
                assert(is_digit(rest[k - e - 2]));
            } else {
                assert(rest[k - e - 1] == body[k]);
                assert(is_digit(rest[k - e - 1]));
            }
        }
        if !signed {
            assert(rest[0] == body[e + 1]);
            assert(is_digit(rest[0]));
        } else {
            assert(x[0] == body[e + 1]);
        }
        assert(body[e] == 'e' || body[e] == 'E');
        let b = body.len() - 1;
        assert(s.last() == body[b]);
        if signed {
            assert(b > e + 1);
        }
    } else {
        assert(digits.len() > 0);
        let b = body.len() - 1;
        assert(s.last() == body[b]);
        if b == p {
            assert(body[b] == '.');
        } else {
            assert(is_digit(body[b]));
        }
    }
    let a = i - o;
    let c = j - o;
    assert(s[j] == body[c]);
    if a >= 0 {
        assert(s[i] == body[a]);
    }
    if c > 0 {
        assert(s[j - 1] == body[c - 1]);
    }
}

/// A text without a digit is no number, unless it says infinity.
pub proof fn law_number_has_a_digit(s: Seq<char>)
    requires
        amount_of(s) is Some,
        !says_infinity(s),
    ensures
        exists|k: int| 0 <= k < s.len() && '0' <= #[trigger] s[k] <= '9',
{
    let body = without_mark(s);
    let o: int = if body.len() < s.len() {
        1
    } else {
        0
    };
    let e = exponent_position(body);
    lemma_first_position(body, 'e');
    lemma_first_position(body, 'E');
    let mantissa = body.take(e);
    let digits = point_digits(mantissa);
    lemma_first_position(mantissa, '.');
    let p = first_position(mantissa, '.') as int;
    assert(unsigned_units(body) is Some);
    assert(digits.len() > 0 && all_digits(digits));
    assert(is_digit(digits[0]));
    let k: int = if p == 0 && p < mantissa.len() {
        1
    } else {
        0
    };
    assert(digits[0] == mantissa[k]);
    assert(mantissa[k] == body[k]);
    assert(body[k] == s[k + o]);
}

}
