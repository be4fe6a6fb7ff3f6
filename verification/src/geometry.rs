//! The shape of the grid: its levels, the size of an order, and the margin it takes.
use crate::amount::{
    clamp, distance, divide_rounded, in_range, is_amount, lemma_round_div, near_range, round_div,
    round_to, round_to_step, DECIMALS, LIMIT, SCALE,
};
use crate::decimal::{
    decimals_needed, fixed_text, fixed_to_text, needed_decimals, show_amount, shown,
};
use crate::wide::{
    lemma_powers_of_scale, lemma_signed_product, round_signed, signed, unsigned, Wide,
};
use vstd::arithmetic::div_mod::lemma_div_is_ordered;
use vstd::prelude::*;

verus! {

/// The most levels that a grid has on either side.
pub const MAX_GRIDS: usize = 1_073_741_823;

/// What the grid is built from. Prices, sizes and rates are amounts.
#[derive(Clone, Copy, Debug)]
pub struct Config {
    /// The price at which the upper side breaks even.
    pub p_be_up: i128,
    /// The price at which the lower side breaks even.
    pub p_be_down: i128,
    /// The fee on a trade.
    pub fee_rate: i128,
    /// The rate of the maintenance margin.
    pub mmr: i128,
    /// The size that either side holds at most.
    pub q_s: i128,
    /// The number of levels on either side.
    pub grids: usize,
    /// The step of prices.
    pub tick_sz: i128,
    /// The step of sizes.
    pub lot_sz: i128,
    /// The value of one contract.
    pub ct_val: i128,
    /// The delta that options are chosen by.
    pub delta: i128,
}

impl Config {
    /// The configurations that a grid can be built from: steps above zero, at least one
    /// level, amounts within the limits.
    pub open spec fn wf(self) -> bool {
        &&& in_range(self.p_be_up as int)
        &&& in_range(self.p_be_down as int)
        &&& in_range(self.mmr as int)
        &&& in_range(2 * self.q_s)
        &&& in_range(self.ct_val as int)
        &&& in_range(self.delta as int)
        &&& 0 < self.tick_sz <= LIMIT
        &&& 0 < self.lot_sz <= LIMIT
        &&& 1 <= self.grids <= MAX_GRIDS
    }

    /// Can a grid be built from the configuration?
    pub fn is_valid(&self) -> (r: bool)
        ensures
            r == self.wf(),
    {
        is_amount(self.p_be_up) && is_amount(self.p_be_down) && is_amount(self.mmr) && is_amount(
            self.q_s,
        ) && is_amount(2 * self.q_s) && is_amount(self.ct_val) && is_amount(self.delta) && 0
            < self.tick_sz && self.tick_sz <= LIMIT && 0 < self.lot_sz && self.lot_sz <= LIMIT && 1
            <= self.grids && self.grids <= MAX_GRIDS
    }
}

/// The curve that the prices of the grid lie on.
pub struct PriceCurve {
    /// The prices of the levels, from the lowest to the highest, before they are rounded
    /// to the step.
    pub levels: Vec<i128>,
    /// The average price at which the short side is entered.
    pub avg_entry_short: i128,
}

impl PriceCurve {
    /// The curve has a price for each level of a grid with `n` levels on either side.
    pub open spec fn wf(self, n: int) -> bool {
        &&& self.levels@.len() == 2 * n + 1
        &&& forall|i: int| 0 <= i < self.levels@.len() ==> in_range(#[trigger] self.levels@[i] as int)
        &&& in_range(self.avg_entry_short as int)
    }

    /// Does the curve have a price for each level of a grid with `n` levels on either side?
    pub fn is_valid(&self, n: usize) -> (r: bool)
        requires
            n <= MAX_GRIDS,
        ensures
            r == self.wf(n as int),
    {
        if self.levels.len() as u64 != 2 * n as u64 + 1 || !is_amount(self.avg_entry_short) {
            return false;
        }
        let mut i: usize = 0;
        while i < self.levels.len()
            invariant
                i <= self.levels@.len(),
                forall|j: int| 0 <= j < i ==> in_range(#[trigger] self.levels@[j] as int),
            decreases self.levels@.len() - i,
        {
            if !is_amount(self.levels[i]) {
                return false;
            }
            i = i + 1;
        }
        true
    }
}

/// A grid.
pub struct StrategyGeometry {
    /// The prices of the levels `-n` to `n`, before they are rounded to the step.
    pub levels: Vec<i128>,
    /// The number of levels on either side.
    pub n: i32,
    /// The size of the order at one level.
    pub q_grid: i128,
    /// The size of all orders on one side.
    pub actual_q_s: i128,
    /// The margin that the grid takes.
    pub margin_total: i128,
    /// The decimals of a price.
    pub tick_decimals: usize,
    /// The decimals of a size.
    pub lot_decimals: usize,
}

impl StrategyGeometry {
    /// The price of level `k`, before it is rounded to the step.
    pub open spec fn level(self, k: int) -> int {
        self.levels@[k + self.n] as int
    }

    /// A grid with a price for each level.
    pub open spec fn wf(self) -> bool {
        &&& 1 <= self.n <= MAX_GRIDS
        &&& self.levels@.len() == 2 * self.n + 1
        &&& forall|i: int| 0 <= i < self.levels@.len() ==> in_range(#[trigger] self.levels@[i] as int)
        &&& 0 <= self.q_grid <= LIMIT
        &&& in_range(self.actual_q_s as int)
        &&& in_range(self.margin_total as int)
    }
}

/// The order at one level would be smaller than a lot.
#[derive(Clone, Copy, Debug)]
pub struct OrderTooSmall {
    pub q_grid: i128,
    pub lot_sz: i128,
}

impl OrderTooSmall {
    /// What is wrong, in text.
    pub fn message(&self) -> (text: String)
        requires
            in_range(self.q_grid as int),
            in_range(self.lot_sz as int),
        ensures
            text@ == shown(self.q_grid as int) + seq![' ', '<', ' '] + shown(self.lot_sz as int),
    {
        let mut text = show_amount(self.q_grid);
        let ghost first = text@;
        text.push(' ');
        text.push('<');
        text.push(' ');
        assert(text@ == first + seq![' ', '<', ' ']);
        text.append(show_amount(self.lot_sz).as_str());
        text
    }
}

/// The size of the order at one level: the `n`th part of the size of one side, in whole
/// lots.
pub open spec fn grid_size(config: Config) -> int {
    round_div(config.q_s as int, config.grids * config.lot_sz) * config.lot_sz
}

/// The margin of a grid whose orders on one side have the size `total`: what the short
/// side loses up to the upper break-even price, and the maintenance margin there.
pub open spec fn margin(config: Config, total: int, avg_entry_short: int) -> int {
    let loss = if config.p_be_up > avg_entry_short {
        config.p_be_up - avg_entry_short
    } else {
        0
    };
    let per_unit = loss * SCALE + config.p_be_up * config.mmr;
    clamp(round_div(total * config.ct_val * per_unit, SCALE * SCALE * SCALE))
}

/// Computes the margin; it is rounded once.
fn compute_margin(config: &Config, total: i128, avg_entry_short: i128) -> (r: i128)
    requires
        config.wf(),
        in_range(total as int),
        in_range(avg_entry_short as int),
    ensures
        r == margin(*config, total as int, avg_entry_short as int),
        in_range(r as int),
{
    let loss: i128 = if config.p_be_up > avg_entry_short {
        config.p_be_up - avg_entry_short
    } else {
        0
    };
    let up = unsigned(config.p_be_up);
    let rate = unsigned(config.mmr);
    let size = unsigned(total);
    let worth = unsigned(config.ct_val);
    let lost = Wide::new(loss as u128).times(SCALE as u128);
    let upkeep = Wide::new(up).times(rate);
    let falls = (config.p_be_up < 0) != (config.mmr < 0);
    proof {
        lemma_signed_product(up as int, config.p_be_up < 0, rate as int, config.mmr < 0);
    }
    let ghost per = loss * SCALE + config.p_be_up * config.mmr;
    let (per_unit, below) = if !falls {
        (lost.plus(&upkeep), false)
    } else {
        match lost.minus(&upkeep) {
            Some(d) => (d, false),
            None => match upkeep.minus(&lost) {
                Some(d) => (d, true),
                None => (lost, false),
            },
        }
    };
    assert(per == signed(per_unit@ as int, below));
    let whole = per_unit.times(size).times(worth);
    let negative = ((total < 0) != (config.ct_val < 0)) != below;
    proof {
        lemma_signed_product(size as int, total < 0, worth as int, config.ct_val < 0);
        lemma_signed_product(
            size * worth,
            (total < 0) != (config.ct_val < 0),
            per_unit@ as int,
            below,
        );
        assert((size * worth) * per_unit@ == per_unit@ * size * worth) by (nonlinear_arith);
        lemma_powers_of_scale();
    }
    round_signed(&whole, negative, 3)
}

/// The `n`th part of a size, in whole lots, is within twice the size.
proof fn lemma_grid_size_bound(size: int, n: int, lot: int)
    requires
        n >= 1,
        lot >= 1,
    ensures
        ({
            let q = round_div(size, n * lot);
            &&& distance(q * lot, 0) <= 2 * distance(size, 0)
            &&& distance(q * lot * n, 0) <= 2 * distance(size, 0)
            &&& size >= 0 ==> q * lot >= 0
        }),
{
    let d = n * lot;
    assert(d >= 1) by (nonlinear_arith)
        requires
            n >= 1,
            lot >= 1,
            d == n * lot,
    ;
    lemma_round_div(size, d);
    let q = round_div(size, d);
    let m = distance(q, 0);
    assert(m * d == distance(q * d, 0)) by (nonlinear_arith)
        requires
            m == distance(q, 0),
            d >= 1,
    ;
    assert(m >= 1 ==> m * d >= d) by (nonlinear_arith)
        requires
            d >= 1,
    ;
    assert(m == 0 ==> m * d == 0) by (nonlinear_arith);
    assert(q * lot * n == q * d) by (nonlinear_arith)
        requires
            d == n * lot,
    ;
    assert(distance(q * lot, 0) <= distance(q * lot * n, 0)) by (nonlinear_arith)
        requires
            n >= 1,
    ;
    assert(size >= 0 ==> q * lot >= 0) by (nonlinear_arith)
        requires
            size >= 0 ==> q >= 0,
            lot >= 1,
    ;
}

impl Config {
    /// Shapes the grid along a curve, or says that an order would be too small.
    pub fn calculate(&self, curve: PriceCurve) -> (r: Result<StrategyGeometry, OrderTooSmall>)
        requires
            self.wf(),
            curve.wf(self.grids as int),
        ensures
            r is Ok <==> grid_size(*self) >= self.lot_sz,
            r matches Ok(geo) ==> {
                &&& geo.wf()
                &&& geo.levels == curve.levels
                &&& geo.n == self.grids
                &&& geo.q_grid == grid_size(*self)
                &&& geo.actual_q_s == geo.q_grid * geo.n
                &&& geo.margin_total == margin(
                    *self,
                    geo.actual_q_s as int,
                    curve.avg_entry_short as int,
                )
                &&& geo.tick_decimals == needed_decimals(self.tick_sz as int)
                &&& geo.lot_decimals == needed_decimals(self.lot_sz as int)
            },
            r matches Err(e) ==> e.q_grid == grid_size(*self) && e.lot_sz == self.lot_sz
                && in_range(e.q_grid as int) && in_range(e.lot_sz as int),
    {
        let n: i128 = self.grids as i128;
        assert(n * self.lot_sz <= MAX_GRIDS * LIMIT) by (nonlinear_arith)
            requires
                1 <= n <= MAX_GRIDS,
                0 < self.lot_sz <= LIMIT,
        ;
        assert(n * self.lot_sz >= 1) by (nonlinear_arith)
            requires
                1 <= n,
                0 < self.lot_sz,
        ;
        let lots = divide_rounded(self.q_s, n * self.lot_sz);
        proof {
            lemma_grid_size_bound(self.q_s as int, n as int, self.lot_sz as int);
        }
        let q_grid: i128 = lots * self.lot_sz;
        if q_grid < self.lot_sz {
            return Err(OrderTooSmall { q_grid, lot_sz: self.lot_sz });
        }
        let actual_q_s: i128 = q_grid * n;
        let margin_total = compute_margin(self, actual_q_s, curve.avg_entry_short);
        Ok(
            StrategyGeometry {
                levels: curve.levels,
                n: self.grids as i32,
                q_grid,
                actual_q_s,
                margin_total,
                tick_decimals: decimals_needed(self.tick_sz),
                lot_decimals: decimals_needed(self.lot_sz),
            },
        )
    }
}

/// The price of level `k`, rounded to the step.
pub fn price_at(geo: &StrategyGeometry, tick_sz: i128, k: i32) -> (price: i128)
    requires
        geo.wf(),
        -geo.n <= k <= geo.n,
        0 < tick_sz <= LIMIT,
    ensures
        price == round_to(geo.level(k as int), tick_sz as int),
        2 * distance(price as int, geo.level(k as int)) <= tick_sz,
{
    let index: usize = (k + geo.n) as usize;
    round_to_step(geo.levels[index], tick_sz)
}

/// The levels rise, or stay, from the lowest to the highest.
pub open spec fn levels_rise(levels: Seq<i128>) -> bool {
    forall|i: int, j: int| 0 <= i <= j < levels.len() ==> levels[i] <= levels[j]
}

/// Rounding to a step keeps the order.
proof fn lemma_round_to_keeps_order(x: int, y: int, step: int)
    requires
        x <= y,
        step > 0,
    ensures
        round_to(x, step) <= round_to(y, step),
{
    lemma_round_div(x, step);
    lemma_round_div(y, step);
    let a = round_div(x, step);
    let b = round_div(y, step);
    if x >= 0 {
        lemma_div_is_ordered(2 * x + step, 2 * y + step, 2 * step);
    } else if y < 0 {
        lemma_div_is_ordered(2 * (-y) + step, 2 * (-x) + step, 2 * step);
    }
    assert(a * step <= b * step) by (nonlinear_arith)
        requires
            a <= b,
            step > 0,
    ;
}

/// The prices of the grid rise with the level: where the levels of the curve do, so do
/// the prices that they are rounded to, whatever the step.
pub proof fn law_prices_rise(geo: StrategyGeometry, step: int, a: int, b: int)
    requires
        geo.wf(),
        levels_rise(geo.levels@),
        step > 0,
        -geo.n <= a <= b <= geo.n,
    ensures
        round_to(geo.level(a), step) <= round_to(geo.level(b), step),
{
    lemma_round_to_keeps_order(geo.level(a), geo.level(b), step);
}

/// Writes `val`, rounded to the step, with `decimals` decimals.
pub fn format_float(val: i128, step: i128, decimals: usize) -> (text: String)
    requires
        near_range(val as int),
        0 < step <= LIMIT,
    ensures
        text@ == fixed_text(round_to(val as int, step as int), DECIMALS as nat, decimals as nat),
{
    fixed_to_text(round_to_step(val, step), DECIMALS, decimals)
}

/// The order at one level is a whole number of lots; times the number of levels it is
/// within half a lot per level of the size of one side.
pub proof fn law_level_is_its_part_of_the_side(config: Config)
    requires
        config.wf(),
    ensures
        exists|c: int| grid_size(config) == #[trigger] (c * config.lot_sz),
        -config.grids * config.lot_sz <= 2 * (grid_size(config) * config.grids - config.q_s)
            <= config.grids * config.lot_sz,
        config.q_s >= 0 ==> grid_size(config) >= 0,
{
    let n = config.grids as int;
    let lot = config.lot_sz as int;
    let d = n * lot;
    assert(d >= 1) by (nonlinear_arith)
        requires
            n >= 1,
            lot >= 1,
            d == n * lot,
    ;
    lemma_round_div(config.q_s as int, d);
    let c = round_div(config.q_s as int, d);
    assert(grid_size(config) == c * lot);
    assert(c * lot * n == c * d) by (nonlinear_arith)
        requires
            d == n * lot,
    ;
    assert(-n * lot == -d) by (nonlinear_arith)
        requires
            d == n * lot,
    ;
    assert(c >= 0 ==> c * lot >= 0) by (nonlinear_arith)
        requires
            lot >= 1,
    ;
}

/// The margin is the size times the contract value times what a unit loses from its
/// average entry up to the upper break-even price, if anything, and the maintenance margin
/// there; to the nearest unit.
pub proof fn law_margin_covers_the_loss(config: Config, total: int, avg: int)
    ensures
        ({
            let loss = if avg < config.p_be_up {
                config.p_be_up - avg
            } else {
                0
            };
            let exact = total * config.ct_val * (loss * 10_000_000_000 + config.p_be_up
                * config.mmr);
            let unit = 1_000_000_000_000_000_000_000_000_000_000int;
            let r = margin(config, total, avg);
            &&& in_range(r)
            &&& -LIMIT < r < LIMIT ==> -unit <= 2 * (r * unit - exact) <= unit
            &&& exact > 2 * LIMIT * unit ==> r == LIMIT
            &&& exact < -2 * LIMIT * unit ==> r == -LIMIT
        }),
{
    let loss = if avg < config.p_be_up {
        config.p_be_up - avg
    } else {
        0
    };
    let exact = total * config.ct_val * (loss * SCALE + config.p_be_up * config.mmr);
    let unit = 1_000_000_000_000_000_000_000_000_000_000int;
    assert(SCALE * SCALE * SCALE == unit) by {
        assert(10_000_000_000int * 10_000_000_000 == 100_000_000_000_000_000_000)
            by (nonlinear_arith);
        assert(100_000_000_000_000_000_000int * 10_000_000_000 == unit) by (nonlinear_arith)
            requires
                unit == 1_000_000_000_000_000_000_000_000_000_000int,
        ;
    }
    lemma_round_div(exact, unit);
    let q = round_div(exact, unit);
    assert(q >= LIMIT ==> q * unit >= LIMIT * unit) by (nonlinear_arith)
        requires
            unit >= 1,
    ;
    assert(q <= LIMIT ==> q * unit <= LIMIT * unit) by (nonlinear_arith)
        requires
            unit >= 1,
    ;
    assert(q >= -LIMIT ==> q * unit >= -LIMIT * unit) by (nonlinear_arith)
        requires
            unit >= 1,
    ;
}

/// The levels of a grid are those of the curve, from level `-n` on.
pub proof fn law_levels_are_counted_from_the_centre(geo: StrategyGeometry, k: int)
    requires
        geo.wf(),
        -geo.n <= k <= geo.n,
    ensures
        geo.level(k) == geo.levels@[geo.n + k],
        geo.levels@.len() == 2 * geo.n + 1,
{
}

}
