//! Amounts in text: a fixed number of decimals, or as many as the amount needs.
use crate::amount::{
    amount_of, clamp, distance, exponent_position, in_range, is_word, lemma_digits_concat,
    lemma_round_div, lemma_round_to_multiple, lemma_ten_to_adds, lemma_ten_to_positive, lower,
    magnitude,
    point_decimals, point_digits, round_div, round_to, round_up_div, shifted, unsigned_units,
    DECIMALS,
};
use crate::text::{
    all_digits, digit_char, digits_value, first_position, is_digit, least, lemma_first_position,
    lemma_radix_ten, radix, radix_text, ten_to,
};
use vstd::arithmetic::div_mod::{
    lemma_fundamental_div_mod, lemma_fundamental_div_mod_converse, lemma_hoist_over_denominator,
    lemma_mod_bound,
};
use vstd::prelude::*;

verus! {

/// `a / b` to the nearest whole, halves to the even one.
pub open spec fn half_even_div(a: int, b: int) -> int {
    let q = a / b;
    let r = a % b;
    if 2 * r > b || (2 * r == b && q % 2 == 1) {
        q + 1
    } else {
        q
    }
}

/// The last `width` digits of `n`.
pub open spec fn padded(n: nat, width: nat) -> Seq<char>
    decreases width,
{
    if width == 0 {
        Seq::empty()
    } else {
        padded(n / 10, (width - 1) as nat).push(digit_char(n % 10))
    }
}

/// `n` zeros.
pub open spec fn zeros(n: nat) -> Seq<char> {
    Seq::new(n, |i: int| '0')
}

/// The sign of `x` in text.
pub open spec fn sign_text(x: int) -> Seq<char> {
    if x < 0 {
        seq!['-']
    } else {
        Seq::empty()
    }
}

/// `x / 10^scale` to `kept` decimals, as a whole number.
pub open spec fn kept_units(x: int, scale: nat, kept: nat) -> int {
    half_even_div(magnitude(x), ten_to((scale - kept) as nat) as int)
}

/// `x / 10^scale` with `decimals` decimals, halves to the even digit.
pub open spec fn fixed_text(x: int, scale: nat, decimals: nat) -> Seq<char> {
    let kept = least(decimals as int, scale as int) as nat;
    let m = kept_units(x, scale, kept);
    let unit = ten_to(kept) as int;
    let whole = sign_text(x) + radix((m / unit) as nat, 10);
    if decimals == 0 {
        whole
    } else {
        whole + seq!['.'] + padded((m % unit) as nat, kept) + zeros((decimals - kept) as nat)
    }
}

/// `x` needs no more than `d` decimals.
pub open spec fn fits_decimals(x: int, d: int) -> bool {
    0 <= d <= DECIMALS && magnitude(x) % (ten_to((DECIMALS - d) as nat) as int) == 0
}

/// The decimals that `x` needs: the fewest that write it in full.
pub open spec fn needed_decimals(x: int) -> nat {
    needed_from(x, 0)
}

/// The fewest decimals, `d` or more, that write `x` in full.
pub open spec fn needed_from(x: int, d: int) -> nat
    decreases DECIMALS - d,
{
    if d >= DECIMALS || fits_decimals(x, d) {
        d as nat
    } else {
        needed_from(x, d + 1)
    }
}

/// An amount in text, with the decimals that it needs.
pub open spec fn shown(x: int) -> Seq<char> {
    fixed_text(x, DECIMALS as nat, needed_decimals(x))
}

/// The power of ten `10^m`.
pub fn ten_power(m: usize) -> (t: u128)
    requires
        m <= 30,
    ensures
        t == ten_to(m as nat),
        1 <= t <= 1_000_000_000_000_000_000_000_000_000_000,
{
    let mut t: u128 = 1;
    let mut i: usize = 0;
    proof {
        reveal_with_fuel(ten_to, 31);
    }
    while i < m
        invariant
            i <= m <= 30,
            t == ten_to(i as nat),
            forall|j: nat| j <= 30 ==> #[trigger] ten_to(j)
                <= 1_000_000_000_000_000_000_000_000_000_000,
        decreases m - i,
    {
        assert(ten_to((i + 1) as nat) == 10 * ten_to(i as nat));
        t = t * 10;
        i = i + 1;
    }
    t
}

/// Writes the last `width` digits of `n`.
fn padded_text(n: u128, width: usize) -> (s: String)
    ensures
        s@ == padded(n as nat, width as nat),
    decreases width,
{
    if width == 0 {
        String::new()
    } else {
        let mut s = padded_text(n / 10, width - 1);
        let d: u8 = (n % 10) as u8;
        s.push((48 + d) as char);
        s
    }
}

/// Writes `x / 10^scale` with `decimals` decimals, halves to the even digit.
pub fn fixed_to_text(x: i128, scale: usize, decimals: usize) -> (s: String)
    requires
        scale <= 12,
        x > i128::MIN,
    ensures
        s@ == fixed_text(x as int, scale as nat, decimals as nat),
{
    let kept: usize = if decimals < scale {
        decimals
    } else {
        scale
    };
    let m: u128 = if x < 0 {
        (-x) as u128
    } else {
        x as u128
    };
    let cut: u128 = ten_power(scale - kept);
    let q: u128 = m / cut;
    let r: u128 = m % cut;
    assert(q <= m) by (nonlinear_arith)
        requires
            q == m / cut,
            cut >= 1,
    ;
    assert(r < cut);
    let up = 2 * r > cut || (2 * r == cut && q % 2 == 1);
    let rounded: u128 = if up {
        q + 1
    } else {
        q
    };
    assert(rounded == kept_units(x as int, scale as nat, kept as nat));
    let unit: u128 = ten_power(kept);
    let mut s = String::new();
    if x < 0 {
        s.push('-');
    }
    assert(s@ == sign_text(x as int));
    s.append(radix_text(rounded / unit, 10).as_str());
    if decimals == 0 {
        return s;
    }
    let ghost whole = s@;
    s.push('.');
    assert(s@ == whole + seq!['.']);
    s.append(padded_text(rounded % unit, kept).as_str());
    let ghost before = s@;
    let mut i: usize = kept;
    assert(before + zeros(0) == before);
    while i < decimals
        invariant
            kept <= i <= decimals,
            s@ == before + zeros((i - kept) as nat),
        decreases decimals - i,
    {
        s.push('0');
        i = i + 1;
        assert(zeros((i - kept) as nat) == zeros((i - 1 - kept) as nat).push('0'));
    }
    s
}

/// The decimals that `x` needs.
pub fn decimals_needed(x: i128) -> (d: usize)
    requires
        x > i128::MIN,
    ensures
        d == needed_decimals(x as int),
        d <= DECIMALS,
{
    let m: u128 = if x < 0 {
        (-x) as u128
    } else {
        x as u128
    };
    let mut d: usize = 0;
    while d < DECIMALS && m % ten_power(DECIMALS - d) != 0
        invariant
            d <= DECIMALS,
            m == magnitude(x as int),
            needed_decimals(x as int) == needed_from(x as int, d as int),
        decreases DECIMALS - d,
    {
        d = d + 1;
    }
    d
}

/// Writes an amount with the decimals that it needs.
pub fn show_amount(x: i128) -> (s: String)
    requires
        x > i128::MIN,
    ensures
        s@ == shown(x as int),
{
    fixed_to_text(x, DECIMALS, decimals_needed(x))
}

/// No fewer decimals than those needed write an amount in full, and those do.
pub proof fn law_needed_decimals_are_fewest(x: int, d: int)
    ensures
        fits_decimals(x, needed_decimals(x) as int),
        0 <= d < needed_decimals(x) ==> !fits_decimals(x, d),
{
    lemma_needed_from(x, 0);
}

proof fn lemma_needed_from(x: int, from: int)
    requires
        0 <= from <= DECIMALS,
    ensures
        from <= needed_from(x, from) <= DECIMALS,
        fits_decimals(x, needed_from(x, from) as int),
        forall|d: int| from <= d < needed_from(x, from) ==> !fits_decimals(x, d),
    decreases DECIMALS - from,
{
    if from >= DECIMALS {
        assert(ten_to(0) == 1);
    } else if !fits_decimals(x, from) {
        lemma_needed_from(x, from + 1);
    }
}

proof fn lemma_below_power(n: nat)
    ensures
        n < ten_to(n + 1),
    decreases n,
{
    if n > 0 {
        lemma_below_power((n - 1) as nat);
    }
    assert(ten_to(n + 1) == 10 * ten_to(n));
}

proof fn lemma_padded(n: nat, width: nat)
    requires
        n < ten_to(width),
    ensures
        padded(n, width).len() == width,
        all_digits(padded(n, width)),
        digits_value(padded(n, width)) == n,
    decreases width,
{
    if width > 0 {
        let s = padded(n, width);
        let front = padded(n / 10, (width - 1) as nat);
        lemma_padded(n / 10, (width - 1) as nat);
        assert(s.drop_last() == front);
        assert(s.last() == digit_char(n % 10));
        assert forall|i: int| 0 <= i < s.len() implies is_digit(#[trigger] s[i]) by {
            if i < front.len() {
                assert(s[i] == front[i]);
            }
        }
    }
}

/// A number of digits, with a point and more digits or without, is read as it stands.
proof fn lemma_read_plain(w: Seq<char>, f: Seq<char>, pointed: bool)
    requires
        w.len() >= 1,
        all_digits(w),
        all_digits(f),
        !pointed ==> f.len() == 0,
    ensures
        ({
            let s = if pointed {
                w + seq!['.'] + f
            } else {
                w
            };
            &&& unsigned_units(s) == Some(shifted(digits_value(w + f), DECIMALS - f.len()))
            &&& !is_word(s, "inf"@)
            &&& !is_word(s, "infinity"@)
            &&& s[0] != '-' && s[0] != '+'
        }),
{
    let s = if pointed {
        w + seq!['.'] + f
    } else {
        w
    };
    assert(is_digit(w[0]));
    assert(s[0] == w[0]);
    reveal_strlit("inf");
    reveal_strlit("infinity");
    assert(s.map_values(|c: char| lower(c))[0] == s[0]);
    assert("inf"@[0] == 'i');
    assert("infinity"@[0] == 'i');
    assert forall|i: int| 0 <= i < s.len() implies s[i] != 'e' && s[i] != 'E' && (s[i] == '.'
        <==> pointed && i == w.len()) by {
        if i < w.len() {
            assert(is_digit(w[i]));
            assert(s[i] == w[i]);
        } else if i > w.len() {
            assert(is_digit(f[i - w.len() - 1]));
            assert(s[i] == f[i - w.len() - 1]);
        }
    }
    lemma_first_position(s, 'e');
    lemma_first_position(s, 'E');
    lemma_first_position(s, '.');
    assert(exponent_position(s) == s.len());
    assert(s.take(s.len() as int) == s);
    assert(w + f == if pointed {
        w + f
    } else {
        w
    });
    if pointed {
        let p = first_position(s, '.') as int;
        assert(s[w.len() as int] == '.');
        assert(p == w.len());
        assert(s.take(p) == w);
        assert(s.skip(p + 1) == f);
    }
    assert(point_digits(s) == w + f);
    assert(point_decimals(s) == f.len());
    assert forall|i: int| 0 <= i < (w + f).len() implies is_digit(#[trigger] (w + f)[i]) by {
        if i < w.len() {
            assert(is_digit(w[i]));
        } else {
            assert(is_digit(f[i - w.len()]));
        }
    }
}

/// Zeros at the end are digits without a value of their own.
proof fn lemma_zeros(n: nat)
    ensures
        all_digits(zeros(n)),
        digits_value(zeros(n)) == 0,
    decreases n,
{
    if n > 0 {
        lemma_zeros((n - 1) as nat);
        assert(zeros(n).drop_last() == zeros((n - 1) as nat));
    }
}

/// The decimals that are kept of `decimals`: an amount has no more than `DECIMALS`.
pub open spec fn kept_decimals(decimals: nat) -> nat {
    least(decimals as int, DECIMALS as int) as nat
}

/// `x` rounded to `decimals` decimals.
pub open spec fn kept_amount(x: int, decimals: nat) -> int {
    let kept = kept_decimals(decimals);
    let m = kept_units(x, DECIMALS as nat, kept) * ten_to((DECIMALS - kept) as nat);
    if x < 0 {
        -m
    } else {
        m
    }
}

/// Shifting a number with zeros behind it to where the units begin.
proof fn lemma_shift_back(m: nat, decimals: nat)
    ensures
        ({
            let kept = kept_decimals(decimals);
            shifted((m * ten_to((decimals - kept) as nat)) as nat, DECIMALS - decimals) == m
                * ten_to((DECIMALS - kept) as nat)
        }),
{
    let kept = kept_decimals(decimals);
    let more = (decimals - kept) as nat;
    let t = ten_to(more) as int;
    lemma_ten_to_positive(more);
    assert(ten_to(0) == 1);
    if decimals > DECIMALS {
        assert(2 * (m * t) + t == t + m * (2 * t)) by (nonlinear_arith);
        lemma_hoist_over_denominator(t, m as int, (2 * t) as nat);
        lemma_fundamental_div_mod_converse(t, 2 * t, 0, t);
        assert(round_up_div(m * t, t) == m);
        assert(m * ten_to(0) == m);
    } else {
        assert(m * ten_to(0) == m);
    }
}

/// Is `s` a sign or none, then digits with a point before the last `decimals` of them; no
/// point where there are no decimals?
pub open spec fn has_decimals(s: Seq<char>, decimals: nat) -> bool {
    &&& s.len() > decimals
    &&& forall|i: int|
        0 <= i < s.len() ==> {
            ||| is_digit(#[trigger] s[i])
            ||| decimals > 0 && i == s.len() - decimals - 1 && s[i] == '.'
            ||| i == 0 && s[i] == '-'
        }
    &&& decimals > 0 ==> s[s.len() - decimals - 1] == '.'
}

/// Reading an amount that was written with `decimals` decimals gives the amount back,
/// rounded to those decimals; and it has that many.
pub proof fn law_written_amount_is_read_back(x: int, decimals: nat)
    ensures
        amount_of(fixed_text(x, DECIMALS as nat, decimals)) == Some(
            clamp(kept_amount(x, decimals)),
        ),
        has_decimals(fixed_text(x, DECIMALS as nat, decimals), decimals),
{
    let text = fixed_text(x, DECIMALS as nat, decimals);
    let kept = kept_decimals(decimals);
    let more = (decimals - kept) as nat;
    let m = kept_units(x, DECIMALS as nat, kept);
    let cut = ten_to((DECIMALS - kept) as nat) as int;
    let unit = ten_to(kept) as int;
    lemma_ten_to_positive(kept);
    lemma_ten_to_positive((DECIMALS - kept) as nat);
    assert(m >= 0) by (nonlinear_arith)
        requires
            m >= magnitude(x) / cut,
            cut >= 1,
            magnitude(x) >= 0,
    ;
    lemma_fundamental_div_mod(m, unit);
    lemma_mod_bound(m, unit);
    assert(m / unit >= 0) by (nonlinear_arith)
        requires
            m >= 0,
            unit >= 1,
    ;
    let w = radix((m / unit) as nat, 10);
    let p = padded((m % unit) as nat, kept);
    let z = zeros(more);
    let f = p + z;
    lemma_below_power((m / unit) as nat);
    lemma_radix_ten((m / unit) as nat, ((m / unit) as nat + 1) as nat);
    lemma_padded((m % unit) as nat, kept);
    lemma_zeros(more);
    lemma_digits_concat(w, p);
    assert((m / unit) * unit == unit * (m / unit)) by (nonlinear_arith);
    assert(digits_value(w + p) == m);
    lemma_digits_concat(w + p, z);
    assert(w + f == (w + p) + z);
    let t = ten_to(more) as int;
    lemma_ten_to_positive(more);
    assert(digits_value(w + f) == m * t);
    assert forall|i: int| 0 <= i < f.len() implies is_digit(#[trigger] f[i]) by {
        if i < p.len() {
            assert(is_digit(p[i]));
        } else {
            assert(is_digit(z[i - p.len()]));
        }
    }
    lemma_read_plain(w, f, decimals > 0);
    lemma_shift_back(m as nat, decimals);
    let body = if decimals > 0 {
        w + seq!['.'] + f
    } else {
        w
    };
    assert(text == sign_text(x) + body);
    if x < 0 {
        assert(text.skip(1) == body);
        assert(text[0] == '-');
    } else {
        assert(text == body);
    }
    let sign = sign_text(x);
    assert forall|i: int| 0 <= i < text.len() implies {
        ||| is_digit(#[trigger] text[i])
        ||| decimals > 0 && i == text.len() - decimals - 1 && text[i] == '.'
        ||| i == 0 && text[i] == '-'
    } by {
        let k = i - sign.len();
        if 0 <= k < w.len() {
            assert(text[i] == w[k]);
            assert(is_digit(w[k]));
        } else if k > w.len() {
            assert(text[i] == f[k - w.len() - 1]);
            assert(is_digit(f[k - w.len() - 1]));
        }
    }
}

/// Reading an amount that was written in full gives the amount back.
pub proof fn law_shown_amount_is_read_back(x: int)
    requires
        in_range(x),
    ensures
        amount_of(shown(x)) == Some(x),
{
    let d = needed_decimals(x);
    law_needed_decimals_are_fewest(x, 0);
    law_written_amount_is_read_back(x, d);
    let cut = ten_to((DECIMALS - d) as nat) as int;
    lemma_ten_to_positive((DECIMALS - d) as nat);
    lemma_fundamental_div_mod(magnitude(x), cut);
    assert(cut * (magnitude(x) / cut) == (magnitude(x) / cut) * cut) by (nonlinear_arith);
}

/// A multiple of a step, written with as many decimals as the step has, is kept in full.
proof fn lemma_multiple_is_kept(count: int, step: int, decimals: nat)
    requires
        fits_decimals(step, kept_decimals(decimals) as int),
    ensures
        kept_amount(count * step, decimals) == count * step,
{
    let x = count * step;
    let d = kept_decimals(decimals);
    let cut = ten_to((DECIMALS - d) as nat) as int;
    lemma_ten_to_positive((DECIMALS - d) as nat);
    lemma_fundamental_div_mod(magnitude(step), cut);
    let part = magnitude(step) / cut;
    let m = magnitude(count) * part;
    assert(magnitude(x) == magnitude(count) * magnitude(step)) by (nonlinear_arith)
        requires
            x == count * step,
    ;
    assert(magnitude(x) == m * cut) by (nonlinear_arith)
        requires
            magnitude(x) == magnitude(count) * magnitude(step),
            magnitude(step) == cut * part,
            m == magnitude(count) * part,
    ;
    lemma_fundamental_div_mod_converse(magnitude(x), cut, m, 0);
}

/// A multiple of a step, written with the decimals that the step needs, is read back in
/// full.
pub proof fn law_multiple_of_step_is_read_back(count: int, step: int)
    requires
        in_range(count * step),
    ensures
        amount_of(fixed_text(count * step, DECIMALS as nat, needed_decimals(step))) == Some(
            count * step,
        ),
{
    law_needed_decimals_are_fewest(step, 0);
    lemma_multiple_is_kept(count, step, needed_decimals(step));
    law_written_amount_is_read_back(count * step, needed_decimals(step));
}

/// What is written of an amount, rounded to a step that has no more decimals than are
/// written, has exactly those decimals and is the nearest multiple of the step; and
/// writing what is read back gives the same text.
pub proof fn law_formatting_is_stable(val: int, step: int, decimals: nat)
    requires
        step > 0,
        fits_decimals(step, kept_decimals(decimals) as int),
        in_range(round_to(val, step)),
    ensures
        ({
            let text = fixed_text(round_to(val, step), DECIMALS as nat, decimals);
            &&& has_decimals(text, decimals)
            &&& amount_of(text) == Some(round_to(val, step))
            &&& 2 * distance(round_to(val, step), val) <= step
            &&& fixed_text(round_to(amount_of(text)->0, step), DECIMALS as nat, decimals) == text
        }),
{
    let count = round_div(val, step);
    lemma_multiple_is_kept(count, step, decimals);
    law_written_amount_is_read_back(count * step, decimals);
    lemma_round_div(val, step);
    lemma_round_to_multiple(count, step);
}

/// Digits, a point and at most ten more digits are read as the number that they write.
pub proof fn law_plain_number_is_read(w: Seq<char>, f: Seq<char>)
    requires
        w.len() >= 1,
        f.len() <= 10,
        forall|i: int| 0 <= i < w.len() ==> '0' <= #[trigger] w[i] <= '9',
        forall|i: int| 0 <= i < f.len() ==> '0' <= #[trigger] f[i] <= '9',
    ensures
        amount_of(w) == Some(clamp((digits_value(w) * 10_000_000_000) as int)),
        amount_of(w + seq!['.'] + f) == Some(
            clamp(
                (digits_value(w) * 10_000_000_000 + digits_value(f) * ten_to(
                    (10 - f.len()) as nat,
                )) as int,
            ),
        ),
{
    assert forall|i: int| 0 <= i < w.len() implies is_digit(#[trigger] w[i]) by {}
    assert forall|i: int| 0 <= i < f.len() implies is_digit(#[trigger] f[i]) by {}
    lemma_read_plain(w, Seq::empty(), false);
    lemma_read_plain(w, f, true);
    assert(w + Seq::<char>::empty() == w);
    assert(ten_to(10) == 10_000_000_000) by {
        reveal_with_fuel(ten_to, 11);
    }
    lemma_digits_concat(w, f);
    let a = digits_value(w) as int;
    let b = digits_value(f) as int;
    let p = ten_to(f.len()) as int;
    let q = ten_to((10 - f.len()) as nat) as int;
    lemma_ten_to_adds(f.len(), (10 - f.len()) as nat);
    assert((a * p + b) * q == a * (p * q) + b * q) by (nonlinear_arith);
    assert(a * 10_000_000_000 >= 0);
    lemma_ten_to_positive((10 - f.len()) as nat);
    assert(b * q >= 0) by (nonlinear_arith)
        requires
            b >= 0,
            q >= 1,
    ;
}

/// What is written with a fixed number of decimals is the nearest number that has them,
/// the even one where two are as near; a minus stands before it exactly where it is below
/// zero.
pub proof fn law_fixed_text_is_nearest(x: int, scale: nat, d: nat)
    requires
        d <= scale,
    ensures
        ({
            let s = fixed_text(x, scale, d);
            let m = kept_units(x, scale, d);
            let cut = ten_to((scale - d) as nat) as int;
            let size = if x < 0 {
                -x
            } else {
                x
            };
            let body = if x < 0 {
                s.skip(1)
            } else {
                s
            };
            let n = body.len() as int;
            &&& -cut <= 2 * (m * cut - size) <= cut
            &&& 2 * (m * cut - size) == cut || 2 * (m * cut - size) == -cut ==> m % 2 == 0
            &&& has_decimals(s, d)
            &&& s[0] == '-' <==> x < 0
            &&& d == 0 ==> digits_value(body) == m
            &&& d > 0 ==> digits_value(body.take(n - d - 1) + body.skip(n - d)) == m
        }),
{
    let s = fixed_text(x, scale, d);
    let m = kept_units(x, scale, d);
    let cut = ten_to((scale - d) as nat) as int;
    let unit = ten_to(d) as int;
    let size = magnitude(x);
    lemma_ten_to_positive(d);
    lemma_ten_to_positive((scale - d) as nat);
    lemma_fundamental_div_mod(size, cut);
    lemma_mod_bound(size, cut);
    let q = size / cut;
    assert(cut * q == q * cut) by (nonlinear_arith);
    assert((q + 1) * cut == q * cut + cut) by (nonlinear_arith);
    assert(m >= 0) by (nonlinear_arith)
        requires
            m >= size / cut,
            cut >= 1,
            size >= 0,
    ;
    lemma_fundamental_div_mod(m, unit);
    lemma_mod_bound(m, unit);
    assert(m / unit >= 0) by (nonlinear_arith)
        requires
            m >= 0,
            unit >= 1,
    ;
    let w = radix((m / unit) as nat, 10);
    let p = padded((m % unit) as nat, d);
    lemma_below_power((m / unit) as nat);
    lemma_radix_ten((m / unit) as nat, ((m / unit) as nat + 1) as nat);
    lemma_padded((m % unit) as nat, d);
    lemma_digits_concat(w, p);
    assert((m / unit) * unit == unit * (m / unit)) by (nonlinear_arith);
    assert(digits_value(w + p) == m);
    let sign = sign_text(x);
    let body = if x < 0 {
        s.skip(1)
    } else {
        s
    };
    assert(zeros(0) =~= Seq::empty());
    if d == 0 {
        assert(s == sign + w);
        assert(body == w);
        assert(w + p == w);
    } else {
        assert(s == sign + (w + seq!['.'] + p));
        assert(body == w + seq!['.'] + p);
        assert(body.take(body.len() - d - 1) == w);
        assert(body.skip(body.len() - d) == p);
    }
    assert(is_digit(w[0]));
    assert(body[0] == w[0]);
    assert forall|i: int| 0 <= i < s.len() implies {
        ||| is_digit(#[trigger] s[i])
        ||| d > 0 && i == s.len() - d - 1 && s[i] == '.'
        ||| i == 0 && s[i] == '-'
    } by {
        let k = i - sign.len();
        if 0 <= k < w.len() {
            assert(s[i] == w[k]);
            assert(is_digit(w[k]));
        } else if k > w.len() {
            assert(s[i] == p[k - w.len() - 1]);
            assert(is_digit(p[k - w.len() - 1]));
        }
    }
}

/// The decimals of a step: with that many it is a whole number of units, with fewer it is
/// not, and it never has more than ten.
pub proof fn law_decimals_of_a_step(x: int, d: nat)
    requires
        x >= 0,
        d <= 10,
    ensures
        needed_decimals(x) <= 10,
        d >= needed_decimals(x) ==> x % (ten_to((10 - needed_decimals(x)) as nat) as int) == 0,
        d < needed_decimals(x) ==> x % (ten_to((10 - d) as nat) as int) != 0,
{
    law_needed_decimals_are_fewest(x, d as int);
}

}
