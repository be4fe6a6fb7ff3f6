//! Whole numbers of any size, for products that are rounded only once.
use crate::amount::{clamp, in_range, round_div, round_up_div, LIMIT, SCALE};
use crate::text::least;
use vstd::arithmetic::div_mod::{lemma_fundamental_div_mod_converse, lemma_hoist_over_denominator};
use vstd::prelude::*;

verus! {

/// The base of the digits.
pub const BASE: u64 = 10_000_000_000;

/// `BASE^i`.
pub open spec fn power(i: nat) -> nat
    decreases i,
{
    if i == 0 {
        1
    } else {
        (BASE * power((i - 1) as nat)) as nat
    }
}

/// The number that digits write, the lowest first.
pub open spec fn value(digits: Seq<u64>) -> nat
    decreases digits.len(),
{
    if digits.len() == 0 {
        0
    } else {
        (value(digits.drop_last()) + digits.last() * power((digits.len() - 1) as nat)) as nat
    }
}

/// All digits are below the base.
pub open spec fn digits_fit(digits: Seq<u64>) -> bool {
    forall|i: int| 0 <= i < digits.len() ==> #[trigger] digits[i] < BASE
}

/// A whole number that is not negative.
pub struct Wide {
    digits: Vec<u64>,
}

impl View for Wide {
    type V = nat;

    closed spec fn view(&self) -> nat {
        value(self.digits@)
    }
}

proof fn lemma_power(i: nat)
    ensures
        power(i) >= 1,
        power(i + 1) == BASE * power(i),
    decreases i,
{
    if i > 0 {
        lemma_power((i - 1) as nat);
    }
}

proof fn lemma_push(digits: Seq<u64>, d: u64)
    ensures
        value(digits.push(d)) == value(digits) + d * power(digits.len()),
{
    assert(digits.push(d).drop_last() == digits);
}

proof fn lemma_take(digits: Seq<u64>, i: int)
    requires
        0 <= i < digits.len(),
    ensures
        value(digits.take(i + 1)) == value(digits.take(i)) + digits[i] * power(i as nat),
{
    assert(digits.take(i + 1) == digits.take(i).push(digits[i]));
    lemma_push(digits.take(i), digits[i]);
}

proof fn lemma_bound(digits: Seq<u64>)
    requires
        digits_fit(digits),
    ensures
        value(digits) < power(digits.len()),
    decreases digits.len(),
{
    if digits.len() > 0 {
        let front = digits.drop_last();
        assert forall|i: int| 0 <= i < front.len() implies #[trigger] front[i] < BASE by {
            assert(front[i] == digits[i]);
        }
        lemma_bound(front);
        let p = power(front.len()) as int;
        let d = digits[digits.len() - 1] as int;
        assert(value(front) + d * p < BASE * p) by (nonlinear_arith)
            requires
                value(front) < p,
                d < BASE,
        ;
    }
}

/// The number splits into its lower digits and the higher ones, shifted.
proof fn lemma_split(digits: Seq<u64>, i: int)
    requires
        0 <= i <= digits.len(),
    ensures
        value(digits) == value(digits.take(i)) + power(i as nat) * value(digits.skip(i)),
    decreases digits.len(),
{
    if i == digits.len() {
        assert(digits.take(i) == digits);
        assert(power(i as nat) * value(digits.skip(i)) == 0) by (nonlinear_arith)
            requires
                value(digits.skip(i)) == 0,
        ;
    } else {
        let front = digits.drop_last();
        lemma_split(front, i);
        assert(front.take(i) == digits.take(i));
        assert(digits.skip(i).drop_last() == front.skip(i));
        let d = digits.last() as int;
        let p = power(i as nat) as int;
        let h = power((digits.len() - 1 - i) as nat) as int;
        lemma_power_adds(i as nat, (digits.len() - 1 - i) as nat);
        assert(p * (value(front.skip(i)) + d * h) == p * value(front.skip(i)) + d * (p * h))
            by (nonlinear_arith);
    }
}

proof fn lemma_power_adds(a: nat, b: nat)
    ensures
        power(a + b) == power(a) * power(b),
    decreases a,
{
    if a > 0 {
        lemma_power_adds((a - 1) as nat, b);
        let p = power((a - 1) as nat) as int;
        let q = power(b) as int;
        assert((BASE * p) * q == BASE * (p * q)) by (nonlinear_arith);
        assert((a + b - 1) as nat == (a - 1) as nat + b);
    } else {
        assert(1 * power(b) == power(b));
    }
}

proof fn lemma_lowest(digits: Seq<u64>)
    requires
        digits.len() > 0,
    ensures
        value(digits) == digits[0] + BASE * value(digits.skip(1)),
{
    let none = Seq::<u64>::empty();
    let d = digits[0];
    lemma_split(digits, 1);
    assert(digits.take(1) == none.push(d));
    lemma_push(none, d);
    assert(power(0) == 1);
    assert(d * 1 == d);
    assert(power(1) == BASE * power(0));
}

/// Takes the lowest digit off a number.
fn lowest_digit(x: u128) -> (r: (u64, u128))
    ensures
        r.0 < BASE,
        x == r.1 * BASE + r.0,
        x > 0 ==> r.1 < x,
{
    let d: u64 = (x % 10_000_000_000) as u64;
    let rest: u128 = x / 10_000_000_000;
    (d, rest)
}

impl Wide {
    /// All digits are below the base.
    pub closed spec fn wf(self) -> bool {
        digits_fit(self.digits@)
    }

    /// A number.
    pub fn new(x: u128) -> (r: Wide)
        ensures
            r.wf(),
            r@ == x,
    {
        let mut digits: Vec<u64> = Vec::new();
        let mut rest: u128 = x;
        assert(power(0) == 1 && rest * 1 == rest);
        while rest > 0
            invariant
                digits_fit(digits@),
                value(digits@) + rest * power(digits@.len()) == x,
            decreases rest,
        {
            let (d, next) = lowest_digit(rest);
            proof {
                lemma_push(digits@, d);
                lemma_power(digits@.len());
                let p = power(digits@.len()) as int;
                assert(rest * p == d * p + next * (BASE * p)) by (nonlinear_arith)
                    requires
                        rest == next * BASE + d,
                ;
            }
            digits.push(d);
            rest = next;
        }
        assert(0 * power(digits@.len()) == 0);
        Wide { digits }
    }

    /// The sum of two numbers.
    pub fn plus(&self, other: &Wide) -> (r: Wide)
        requires
            self.wf(),
            other.wf(),
        ensures
            r.wf(),
            r@ == self@ + other@,
    {
        let n = self.digits.len();
        let m = other.digits.len();
        let ghost a = self.digits@;
        let ghost b = other.digits@;
        let mut digits: Vec<u64> = Vec::new();
        let mut carry: u64 = 0;
        let mut i: usize = 0;
        assert(0 * power(0) == 0);
        while i < n || i < m
            invariant
                n == a.len(),
                m == b.len(),
                a == self.digits@,
                b == other.digits@,
                digits_fit(a),
                digits_fit(b),
                digits_fit(digits@),
                digits@.len() == i,
                i <= n || i <= m,
                carry <= 1,
                value(digits@) + carry * power(i as nat) == value(upto(a, i as int)) + value(
                    upto(b, i as int),
                ),
            decreases (if n > m {
                n
            } else {
                m
            }) - i,
        {
            let x: u64 = if i < n {
                self.digits[i]
            } else {
                0
            };
            let y: u64 = if i < m {
                other.digits[i]
            } else {
                0
            };
            let sum: u64 = x + y + carry;
            let d: u64 = sum % BASE;
            let next: u64 = sum / BASE;
            proof {
                lemma_upto(a, i as int);
                lemma_upto(b, i as int);
                lemma_push(digits@, d);
                lemma_power(i as nat);
                let p = power(i as nat) as int;
                assert(d * p + next * (BASE * p) == x * p + y * p + carry * p)
                    by (nonlinear_arith)
                    requires
                        x + y + carry == next * BASE + d,
                ;
            }
            digits.push(d);
            carry = next;
            i = i + 1;
        }
        let ghost before = digits@;
        digits.push(carry);
        proof {
            lemma_push(before, carry);
            assert(upto(a, i as int) == a);
            assert(upto(b, i as int) == b);
        }
        Wide { digits }
    }

    /// The difference of two numbers, where it is not negative.
    pub fn minus(&self, other: &Wide) -> (r: Option<Wide>)
        requires
            self.wf(),
            other.wf(),
        ensures
            r is Some <==> self@ >= other@,
            r matches Some(d) ==> d.wf() && d@ == self@ - other@,
    {
        let n = self.digits.len();
        let m = other.digits.len();
        let ghost a = self.digits@;
        let ghost b = other.digits@;
        let mut digits: Vec<u64> = Vec::new();
        let mut borrow: u64 = 0;
        let mut i: usize = 0;
        assert(0 * power(0) == 0);
        while i < n || i < m
            invariant
                n == a.len(),
                m == b.len(),
                a == self.digits@,
                b == other.digits@,
                digits_fit(a),
                digits_fit(b),
                digits_fit(digits@),
                digits@.len() == i,
                i <= n || i <= m,
                borrow <= 1,
                value(digits@) + value(upto(b, i as int)) == value(upto(a, i as int)) + borrow
                    * power(i as nat),
            decreases (if n > m {
                n
            } else {
                m
            }) - i,
        {
            let x: u64 = if i < n {
                self.digits[i]
            } else {
                0
            };
            let y: u64 = if i < m {
                other.digits[i]
            } else {
                0
            };
            let next: u64 = if x >= y + borrow {
                0
            } else {
                1
            };
            let d: u64 = x + next * BASE - y - borrow;
            proof {
                lemma_upto(a, i as int);
                lemma_upto(b, i as int);
                lemma_push(digits@, d);
                lemma_power(i as nat);
                let p = power(i as nat) as int;
                assert(d * p + y * p + borrow * p == x * p + next * (BASE * p))
                    by (nonlinear_arith)
                    requires
                        d + y + borrow == x + next * BASE,
                ;
            }
            digits.push(d);
            borrow = next;
            i = i + 1;
        }
        proof {
            assert(upto(a, i as int) == a);
            assert(upto(b, i as int) == b);
            lemma_bound(digits@);
            assert(borrow == 1 ==> borrow * power(i as nat) == power(i as nat));
            assert(borrow == 0 ==> borrow * power(i as nat) == 0);
        }
        if borrow == 0 {
            Some(Wide { digits })
        } else {
            None
        }
    }

    /// The product with one digit.
    fn times_digit(&self, m: u64) -> (r: Wide)
        requires
            self.wf(),
            m < BASE,
        ensures
            r.wf(),
            r@ == self@ * m,
    {
        let n = self.digits.len();
        let ghost a = self.digits@;
        let mut digits: Vec<u64> = Vec::new();
        let mut carry: u64 = 0;
        let mut i: usize = 0;
        assert(value(a.take(0)) == 0 && 0 * m == 0 && 0 * power(0) == 0);
        while i < n
            invariant
                n == a.len(),
                a == self.digits@,
                digits_fit(a),
                digits_fit(digits@),
                digits@.len() == i,
                i <= n,
                m < BASE,
                carry < BASE,
                value(digits@) + carry * power(i as nat) == value(a.take(i as int)) * m,
            decreases n - i,
        {
            let x: u64 = self.digits[i];
            assert(x * m <= (BASE - 1) * (BASE - 1)) by (nonlinear_arith)
                requires
                    x <= BASE - 1,
                    m <= BASE - 1,
            ;
            let wide: u128 = x as u128 * m as u128 + carry as u128;
            let (d, over) = lowest_digit(wide);
            assert(over < BASE) by (nonlinear_arith)
                requires
                    over * BASE + d == x * m + carry,
                    x * m <= (BASE - 1) * (BASE - 1),
                    carry < BASE,
            ;
            let next: u64 = over as u64;
            proof {
                lemma_take(a, i as int);
                lemma_push(digits@, d);
                lemma_power(i as nat);
                let p = power(i as nat) as int;
                let v = value(a.take(i as int)) as int;
                assert(d * p + next * (BASE * p) == (x * m) * p + carry * p) by (nonlinear_arith)
                    requires
                        x * m + carry == next * BASE + d,
                ;
                assert((v + x * p) * m == v * m + (x * m) * p) by (nonlinear_arith);
            }
            digits.push(d);
            carry = next;
            i = i + 1;
        }
        let ghost before = digits@;
        digits.push(carry);
        proof {
            lemma_push(before, carry);
            assert(a.take(n as int) == a);
        }
        Wide { digits }
    }

    /// The product with the base.
    fn times_base(&self) -> (r: Wide)
        requires
            self.wf(),
        ensures
            r.wf(),
            r@ == self@ * BASE,
    {
        let ghost a = self.digits@;
        let mut digits: Vec<u64> = Vec::new();
        digits.push(0);
        proof {
            lemma_push(Seq::<u64>::empty(), 0);
            assert(Seq::<u64>::empty().push(0) == digits@);
            assert(value(a.take(0)) * BASE == 0);
        }
        let mut i: usize = 0;
        while i < self.digits.len()
            invariant
                a == self.digits@,
                digits_fit(a),
                digits_fit(digits@),
                i <= a.len(),
                digits@.len() == i + 1,
                value(digits@) == value(a.take(i as int)) * BASE,
            decreases a.len() - i,
        {
            let x: u64 = self.digits[i];
            proof {
                lemma_take(a, i as int);
                lemma_push(digits@, x);
                lemma_power(i as nat);
                let p = power(i as nat) as int;
                let v = value(a.take(i as int)) as int;
                assert((v + x * p) * BASE == v * BASE + x * (BASE * p)) by (nonlinear_arith);
            }
            digits.push(x);
            i = i + 1;
        }
        assert(a.take(a.len() as int) == a);
        Wide { digits }
    }

    /// The product of two numbers.
    pub fn times(&self, x: u128) -> (r: Wide)
        requires
            self.wf(),
        ensures
            r.wf(),
            r@ == self@ * x,
    {
        let mut sum = Wide::new(0);
        let mut shifted = Wide::new(0).plus(self);
        let mut rest: u128 = x;
        while rest > 0
            invariant
                sum.wf(),
                shifted.wf(),
                sum@ + shifted@ * rest == self@ * x,
            decreases rest,
        {
            let (d, next) = lowest_digit(rest);
            proof {
                let s = shifted@ as int;
                assert(s * rest == s * d + (s * BASE) * next) by (nonlinear_arith)
                    requires
                        rest == next * BASE + d,
                ;
            }
            sum = sum.plus(&shifted.times_digit(d));
            shifted = shifted.times_base();
            rest = next;
        }
        assert(shifted@ * 0 == 0);
        sum
    }

    /// The number divided by `BASE^k`, to the nearest whole, halves up, and cut off at
    /// `LIMIT`.
    pub fn round_down(&self, k: usize) -> (r: u128)
        requires
            self.wf(),
            k >= 1,
        ensures
            r == least(round_up_div(self@ as int, power(k as nat) as int), LIMIT as int),
    {
        let mut digits: Vec<u64> = Vec::new();
        let ghost a = self.digits@;
        let mut i: usize = 0;
        while i < self.digits.len() || i < k
            invariant
                a == self.digits@,
                digits_fit(a),
                digits_fit(digits@),
                digits@.len() == i,
                i <= a.len() || i <= k,
                value(digits@) == value(upto(a, i as int)),
            decreases (if a.len() > k {
                a.len() as int
            } else {
                k as int
            }) - i,
        {
            let x: u64 = if i < self.digits.len() {
                self.digits[i]
            } else {
                0
            };
            proof {
                lemma_upto(a, i as int);
                lemma_push(digits@, x);
            }
            digits.push(x);
            i = i + 1;
        }
        assert(upto(a, i as int) == a);
        let ghost all = digits@;
        let limit: u128 = LIMIT as u128;
        let mut high: u128 = 0;
        let mut j: usize = digits.len();
        assert(all.skip(j as int) == Seq::<u64>::empty());
        while j > k
            invariant
                k <= j <= all.len(),
                all == digits@,
                digits_fit(all),
                limit == LIMIT,
                high == least(value(all.skip(j as int)) as int, LIMIT as int),
            decreases j,
        {
            let ghost upper = value(all.skip(j as int)) as int;
            proof {
                let s = all.skip(j - 1);
                lemma_lowest(s);
                assert(s.skip(1) == all.skip(j as int));
                assert(value(s) == all[j - 1] + BASE * upper);
            }
            j = j - 1;
            assert(high * 10_000_000_000 <= LIMIT * 10_000_000_000);
            let next: u128 = high * 10_000_000_000 + digits[j] as u128;
            high = if next > limit {
                limit
            } else {
                next
            };
        }
        let round_up = digits[k - 1] >= BASE / 2;
        proof {
            let p = power(k as nat) as int;
            let q = power((k - 1) as nat) as int;
            lemma_power((k - 1) as nat);
            lemma_power(k as nat);
            let low = value(all.take(k as int)) as int;
            let upper = value(all.skip(k as int)) as int;
            let d = all[k - 1] as int;
            lemma_split(all, k as int);
            lemma_take(all, k - 1);
            let rest = value(all.take(k - 1)) as int;
            lemma_bound(all.take(k - 1));
            lemma_bound(all.take(k as int));
            assert(round_up ==> 2 * low >= p) by (nonlinear_arith)
                requires
                    low == rest + d * q,
                    rest >= 0,
                    p == BASE * q,
                    round_up ==> 2 * d >= BASE,
                    q >= 1,
            ;
            assert(!round_up ==> 2 * low < p) by (nonlinear_arith)
                requires
                    low == rest + d * q,
                    rest < q,
                    p == BASE * q,
                    !round_up ==> 2 * (d + 1) <= BASE,
                    q >= 1,
            ;
            assert(2 * (low + p * upper) + p == (2 * low + p) + upper * (2 * p))
                by (nonlinear_arith);
            lemma_hoist_over_denominator(2 * low + p, upper, (2 * p) as nat);
            if round_up {
                lemma_fundamental_div_mod_converse(2 * low + p, 2 * p, 1, 2 * low - p);
            } else {
                lemma_fundamental_div_mod_converse(2 * low + p, 2 * p, 0, 2 * low + p);
            }
        }
        if round_up && high < limit {
            high + 1
        } else {
            high
        }
    }
}

/// The first `i` digits, or all of them.
spec fn upto(digits: Seq<u64>, i: int) -> Seq<u64> {
    if i < digits.len() {
        digits.take(i)
    } else {
        digits
    }
}

/// One digit more; beyond the last one that is zero.
proof fn lemma_upto(digits: Seq<u64>, i: int)
    requires
        i >= 0,
    ensures
        value(upto(digits, i + 1)) == value(upto(digits, i)) + (if i < digits.len() {
            digits[i] as int
        } else {
            0
        }) * power(i as nat),
{
    if i < digits.len() {
        lemma_take(digits, i);
        assert(digits.take(digits.len() as int) == digits);
    } else {
        assert(0 * power(i as nat) == 0);
    }
}

/// `m`, or `-m` where `negative`.
pub open spec fn signed(m: int, negative: bool) -> int {
    if negative {
        -m
    } else {
        m
    }
}

/// The sign of a product.
pub proof fn lemma_signed_product(x: int, s: bool, y: int, t: bool)
    ensures
        signed(x, s) * signed(y, t) == signed(x * y, s != t),
{
    assert((-x) * y == -(x * y)) by (nonlinear_arith);
    assert(x * (-y) == -(x * y)) by (nonlinear_arith);
    assert((-x) * (-y) == x * y) by (nonlinear_arith);
}

/// An amount without its sign.
pub fn unsigned(x: i128) -> (r: u128)
    requires
        x > i128::MIN,
    ensures
        x == signed(r as int, x < 0),
{
    if x < 0 {
        (-x) as u128
    } else {
        x as u128
    }
}

/// The number, with a sign, divided by `BASE^k`, as an amount.
pub fn round_signed(n: &Wide, negative: bool, k: usize) -> (r: i128)
    requires
        n.wf(),
        k >= 1,
    ensures
        r == clamp(round_div(signed(n@ as int, negative), power(k as nat) as int)),
        in_range(r as int),
{
    let m = n.round_down(k);
    proof {
        let p = power(k as nat) as int;
        lemma_power(k as nat);
        let a = n@ as int;
        assert(round_up_div(a, p) >= 0) by (nonlinear_arith)
            requires
                round_up_div(a, p) == (2 * a + p) / (2 * p),
                a >= 0,
                p >= 1,
        ;
        if a == 0 {
            lemma_fundamental_div_mod_converse(p, 2 * p, 0, p);
        }
    }
    if negative {
        -(m as i128)
    } else {
        m as i128
    }
}

/// Steps of the base are as many of the scale.
pub proof fn lemma_powers_of_scale()
    ensures
        power(1) == SCALE,
        power(2) == SCALE * SCALE,
        power(3) == SCALE * SCALE * SCALE,
{
    reveal_with_fuel(power, 4);
    assert(power(1) == BASE);
}

}
