//! The orders that the grid should have open, given the price and the positions.
use crate::amount::{
    lemma_round_div, lemma_round_to_multiple, near_range, round_div, round_to, round_to_step, LIMIT,
};
use crate::geometry::{price_at, Config, StrategyGeometry, MAX_GRIDS};
use crate::models::{PosSide, Side};
use crate::state::{WsState, WsStateView, NOTICE};
use vstd::prelude::*;

verus! {

/// An order that the grid should have open.
#[derive(Clone, Copy, Debug, PartialEq, Eq, Structural)]
pub struct IdealOrder {
    pub pos_side: PosSide,
    pub side: Side,
    pub k: i32,
    pub size: i128,
    pub price: i128,
}

impl IdealOrder {
    /// The slot of the order.
    pub open spec fn slot(self) -> (PosSide, Side, i32) {
        (self.pos_side, self.side, self.k)
    }
}

/// The part of a position `total` that level `i` of `n` holds, where a level takes `q`:
/// the levels fill up one after another, and the last one takes what is left.
pub open spec fn fill_at(total: int, q: int, n: int, i: int) -> int {
    let left = left_before(total, q, i);
    if i < n && left > q {
        q
    } else {
        left
    }
}

/// What is left of a position `total` for level `i` and those behind it.
pub open spec fn left_before(total: int, q: int, i: int) -> int {
    if total > (i - 1) * q {
        total - (i - 1) * q
    } else {
        0
    }
}

/// The size of a full level, in whole lots.
pub open spec fn level_size(config: Config, geo: StrategyGeometry) -> int {
    round_to(geo.q_grid as int, config.lot_sz as int)
}

/// The part of a position that level `i` holds, in whole lots.
pub open spec fn held_at(
    config: Config,
    geo: StrategyGeometry,
    position: int,
    i: int,
) -> int {
    fill_at(round_to(position, config.lot_sz as int), level_size(config, geo), geo.n as int, i)
}

/// An order at level `k` whose size and price are rounded to their steps.
pub open spec fn order_at(
    config: Config,
    geo: StrategyGeometry,
    pos_side: PosSide,
    side: Side,
    k: int,
    size: int,
) -> IdealOrder {
    IdealOrder {
        pos_side,
        side,
        k: k as i32,
        size: round_to(size, config.lot_sz as int) as i128,
        price: round_to(geo.level(k), config.tick_sz as int) as i128,
    }
}

/// Candidate `j` of the `4 * n`. For each level of the long side below the centre: a sale,
/// one level higher, of what it holds, and a purchase of what it lacks. For each level of
/// the short side above the centre: a purchase, one level lower, of what it holds, and a
/// sale of what it lacks.
pub open spec fn candidate(
    config: Config,
    geo: StrategyGeometry,
    st: WsStateView,
    j: int,
) -> IdealOrder {
    let n = geo.n as int;
    let q = level_size(config, geo);
    if j < 2 * n {
        let i = j / 2 + 1;
        let held = held_at(config, geo, st.pos_long, i);
        if j % 2 == 0 {
            order_at(config, geo, PosSide::Long, Side::Sell, 1 - i, held)
        } else {
            order_at(config, geo, PosSide::Long, Side::Buy, -i, q - held)
        }
    } else {
        let i = (j - 2 * n) / 2 + 1;
        let held = held_at(config, geo, st.pos_short, i);
        if j % 2 == 0 {
            order_at(config, geo, PosSide::Short, Side::Buy, i - 1, held)
        } else {
            order_at(config, geo, PosSide::Short, Side::Sell, i, q - held)
        }
    }
}

/// An order may be placed: it has at least a lot, a purchase lies below the price and a
/// sale above it.
pub open spec fn is_placeable(config: Config, price: int, order: IdealOrder) -> bool {
    &&& order.size >= config.lot_sz - NOTICE
    &&& match order.side {
        Side::Buy => order.price < price,
        Side::Sell => order.price > price,
    }
}

/// The candidates before `j` that may be placed.
pub open spec fn ideal_before(
    config: Config,
    geo: StrategyGeometry,
    st: WsStateView,
    j: int,
) -> Seq<IdealOrder>
    decreases j,
{
    if j <= 0 {
        Seq::empty()
    } else {
        let rest = ideal_before(config, geo, st, j - 1);
        let order = candidate(config, geo, st, j - 1);
        if is_placeable(config, st.price, order) {
            rest.push(order)
        } else {
            rest
        }
    }
}

/// The orders that the grid should have open.
pub open spec fn ideal_orders(config: Config, geo: StrategyGeometry, st: WsStateView) -> Seq<
    IdealOrder,
> {
    ideal_before(config, geo, st, 4 * geo.n)
}

/// No two orders belong to the same slot.
pub open spec fn slots_differ(orders: Seq<IdealOrder>) -> bool {
    forall|a: int, b: int|
        0 <= a < b < orders.len() ==> (#[trigger] orders[a]).slot() != (#[trigger] orders[b]).slot()
}

/// Sizes and prices that rounding to a step can reach.
pub open spec fn ideal_in_range(ideal: Seq<IdealOrder>) -> bool {
    forall|m: int|
        0 <= m < ideal.len() ==> near_range((#[trigger] ideal[m]).size as int) && near_range(
            ideal[m].price as int,
        )
}

/// Adds an order to the list, where it may be placed.
fn add_ideal(
    orders: &mut Vec<IdealOrder>,
    config: &Config,
    geo: &StrategyGeometry,
    price: i128,
    pos_side: PosSide,
    side: Side,
    k: i32,
    size: i128,
)
    requires
        config.wf(),
        geo.wf(),
        -geo.n <= k <= geo.n,
        -3 * LIMIT <= 2 * size <= 3 * LIMIT,
        ideal_in_range(old(orders)@),
    ensures
        ideal_in_range(final(orders)@),
        ({
            let order = order_at(*config, *geo, pos_side, side, k as int, size as int);
            final(orders)@ == if is_placeable(*config, price as int, order) {
                old(orders)@.push(order)
            } else {
                old(orders)@
            }
        }),
{
    let rounded = round_to_step(size, config.lot_sz);
    let at = price_at(geo, config.tick_sz, k);
    if rounded < config.lot_sz - NOTICE {
        return;
    }
    match side {
        Side::Buy => {
            if at >= price {
                return;
            }
        },
        Side::Sell => {
            if at <= price {
                return;
            }
        },
    }
    orders.push(IdealOrder { pos_side, side, k, size: rounded, price: at });
}

/// What the next level is left with.
proof fn lemma_left_step(total: int, q: int, n: int, i: int)
    requires
        q >= 0,
        1 <= i <= n,
    ensures
        i < n ==> left_before(total, q, i) - fill_at(total, q, n, i) == left_before(
            total,
            q,
            i + 1,
        ),
        0 <= fill_at(total, q, n, i) <= left_before(total, q, i),
        total >= 0 ==> left_before(total, q, i) <= total,
{
    assert((i + 1 - 1) * q == (i - 1) * q + q) by (nonlinear_arith);
    assert((i - 1) * q >= 0) by (nonlinear_arith)
        requires
            q >= 0,
            i >= 1,
    ;
}

/// The orders of one side of the grid, behind those that are there.
#[verifier::spinoff_prover]
fn add_side(
    orders: &mut Vec<IdealOrder>,
    config: &Config,
    geo: &StrategyGeometry,
    state: &WsState,
    long: bool,
)
    requires
        config.wf(),
        geo.wf(),
        state.wf(),
        ideal_in_range(old(orders)@),
        old(orders)@ == ideal_before(
            *config,
            *geo,
            state@,
            if long {
                0
            } else {
                2 * geo.n
            },
        ),
    ensures
        ideal_in_range(final(orders)@),
        final(orders)@ == ideal_before(
            *config,
            *geo,
            state@,
            if long {
                2 * geo.n
            } else {
                4 * geo.n
            },
        ),
{
    let position: i128 = if long {
        state.pos_long
    } else {
        state.pos_short
    };
    let total = round_to_step(position, config.lot_sz);
    let q = round_to_step(geo.q_grid, config.lot_sz);
    let mut left: i128 = total;
    let mut i: i32 = 1;
    let ghost base: int = if long {
        0
    } else {
        2 * geo.n
    };
    assert((1 - 1) * q == 0);
    while i <= geo.n
        invariant
            config.wf(),
            geo.wf(),
            state.wf(),
            1 <= i <= geo.n + 1,
            base == if long {
                0
            } else {
                2 * geo.n
            },
            position == if long {
                state.pos_long
            } else {
                state.pos_short
            },
            total == round_to(position as int, config.lot_sz as int),
            q == level_size(*config, *geo),
            0 <= 2 * total <= 3 * LIMIT,
            0 <= 2 * q <= 3 * LIMIT,
            ideal_in_range(orders@),
            i <= geo.n ==> left == left_before(total as int, q as int, i as int),
            orders@ == ideal_before(*config, *geo, state@, base + 2 * (i - 1)),
        decreases geo.n + 1 - i,
    {
        proof {
            lemma_left_step(total as int, q as int, geo.n as int, i as int);
        }
        let held: i128 = if i < geo.n && left > q {
            q
        } else {
            left
        };
        assert(held == held_at(*config, *geo, position as int, i as int));
        left = left - held;
        let ghost j = base + 2 * (i - 1);
        assert(j % 2 == 0 && (j + 1) % 2 == 1);
        assert((j - base) / 2 + 1 == i && (j + 1 - base) / 2 + 1 == i);
        if long {
            add_ideal(orders, config, geo, state.price, PosSide::Long, Side::Sell, 1 - i, held);
            assert(orders@ == ideal_before(*config, *geo, state@, j + 1));
            assert(0 <= held <= total);
            add_ideal(orders, config, geo, state.price, PosSide::Long, Side::Buy, -i, q - held);
        } else {
            add_ideal(orders, config, geo, state.price, PosSide::Short, Side::Buy, i - 1, held);
            assert(orders@ == ideal_before(*config, *geo, state@, j + 1));
            assert(0 <= held <= total);
            add_ideal(orders, config, geo, state.price, PosSide::Short, Side::Sell, i, q - held);
        }
        assert(orders@ == ideal_before(*config, *geo, state@, j + 2));
        i = i + 1;
    }
}

/// Lists the orders that the grid should have open.
pub fn list_ideal_orders(
    config: &Config,
    geo: &StrategyGeometry,
    state: &WsState,
) -> (orders: Vec<IdealOrder>)
    requires
        config.wf(),
        geo.wf(),
        state.wf(),
    ensures
        orders@ == ideal_orders(*config, *geo, state@),
        slots_differ(orders@),
        ideal_in_range(orders@),
{
    let mut orders: Vec<IdealOrder> = Vec::new();
    add_side(&mut orders, config, geo, state, true);
    add_side(&mut orders, config, geo, state, false);
    proof {
        law_slots_differ(*config, *geo, state@);
    }
    orders
}

/// Candidates belong to different slots.
proof fn lemma_candidates_differ(
    config: Config,
    geo: StrategyGeometry,
    st: WsStateView,
    a: int,
    b: int,
)
    requires
        1 <= geo.n <= MAX_GRIDS,
        0 <= a < b < 4 * geo.n,
    ensures
        candidate(config, geo, st, a).slot() != candidate(config, geo, st, b).slot(),
{
}

proof fn lemma_ideal_are_candidates(
    config: Config,
    geo: StrategyGeometry,
    st: WsStateView,
    j: int,
)
    requires
        1 <= geo.n <= MAX_GRIDS,
        0 <= j <= 4 * geo.n,
    ensures
        forall|m: int|
            0 <= m < ideal_before(config, geo, st, j).len() ==> exists|w: int|
                0 <= w < j && #[trigger] candidate(config, geo, st, w)
                    == #[trigger] ideal_before(config, geo, st, j)[m],
        forall|m: int|
            0 <= m < ideal_before(config, geo, st, j).len() ==> is_placeable(
                config,
                st.price,
                #[trigger] ideal_before(config, geo, st, j)[m],
            ),
        slots_differ(ideal_before(config, geo, st, j)),
    decreases j,
{
    if j > 0 {
        let rest = ideal_before(config, geo, st, j - 1);
        let orders = ideal_before(config, geo, st, j);
        lemma_ideal_are_candidates(config, geo, st, j - 1);
        assert forall|m: int| 0 <= m < orders.len() implies exists|w: int|
            0 <= w < j && #[trigger] candidate(config, geo, st, w) == #[trigger] orders[m] by {
            if m < rest.len() {
                assert(orders[m] == rest[m]);
            } else {
                assert(orders[m] == candidate(config, geo, st, j - 1));
            }
        }
        assert forall|a: int, b: int| 0 <= a < b < orders.len() implies (
        #[trigger] orders[a]).slot() != (#[trigger] orders[b]).slot() by {
            assert(orders[a] == rest[a]);
            if b < rest.len() {
                assert(orders[b] == rest[b]);
            } else {
                let w = choose|w: int|
                    0 <= w < j - 1 && #[trigger] candidate(config, geo, st, w) == rest[a];
                lemma_candidates_differ(config, geo, st, w, j - 1);
            }
        }
        assert forall|m: int| 0 <= m < orders.len() implies is_placeable(
            config,
            st.price,
            #[trigger] orders[m],
        ) by {
            if m < rest.len() {
                assert(orders[m] == rest[m]);
            }
        }
    }
}

/// The orders of the grid lie on its levels.
pub proof fn lemma_levels_in_grid(config: Config, geo: StrategyGeometry, st: WsStateView)
    requires
        geo.wf(),
    ensures
        forall|m: int|
            0 <= m < ideal_orders(config, geo, st).len() ==> -geo.n <= (#[trigger] ideal_orders(
                config,
                geo,
                st,
            )[m]).k <= geo.n,
{
    lemma_ideal_are_candidates(config, geo, st, 4 * geo.n);
}

/// The grid has at most one order open in each slot.
pub proof fn law_slots_differ(config: Config, geo: StrategyGeometry, st: WsStateView)
    requires
        geo.wf(),
    ensures
        slots_differ(ideal_orders(config, geo, st)),
{
    lemma_ideal_are_candidates(config, geo, st, 4 * geo.n);
}

/// No order of the grid trades at once: its purchases lie below the price and its sales
/// above it, and each has at least a lot.
pub proof fn law_ideal_orders_rest(
    config: Config,
    geo: StrategyGeometry,
    st: WsStateView,
    m: int,
)
    requires
        geo.wf(),
        0 <= m < ideal_orders(config, geo, st).len(),
    ensures
        is_placeable(config, st.price, ideal_orders(config, geo, st)[m]),
{
    lemma_ideal_are_candidates(config, geo, st, 4 * geo.n);
}

/// What the levels `1` to `m` hold together.
pub open spec fn fills_upto(total: int, q: int, n: int, m: int) -> int
    decreases m,
{
    if m <= 0 {
        0
    } else {
        fills_upto(total, q, n, m - 1) + fill_at(total, q, n, m)
    }
}

/// The levels of a side hold the whole position, no more and no less, and no level but the
/// last holds more than its size.
pub proof fn law_levels_hold_the_position(total: int, q: int, n: int)
    requires
        total >= 0,
        q >= 0,
        n >= 1,
    ensures
        fills_upto(total, q, n, n) == total,
        forall|i: int| 1 <= i <= n ==> 0 <= #[trigger] fill_at(total, q, n, i),
        forall|i: int| 1 <= i < n ==> #[trigger] fill_at(total, q, n, i) <= q,
{
    lemma_fills(total, q, n, n - 1);
    assert forall|i: int| 1 <= i <= n implies 0 <= #[trigger] fill_at(total, q, n, i) by {
        lemma_left_step(total, q, n, i);
    }
}

proof fn lemma_fills(total: int, q: int, n: int, m: int)
    requires
        total >= 0,
        q >= 0,
        0 <= m < n,
    ensures
        fills_upto(total, q, n, m) + left_before(total, q, m + 1) == total,
    decreases m,
{
    if m > 0 {
        lemma_fills(total, q, n, m - 1);
        lemma_left_step(total, q, n, m);
    } else {
        assert((0 + 1 - 1) * q == 0) by (nonlinear_arith);
    }
}

/// The level that candidate `j` belongs to, counted from the centre of its side.
pub open spec fn rank_of(n: int, j: int) -> int {
    if j < 2 * n {
        j / 2 + 1
    } else {
        (j - 2 * n) / 2 + 1
    }
}

/// What level `i` of a side holds of the position there.
pub open spec fn side_held(
    config: Config,
    geo: StrategyGeometry,
    st: WsStateView,
    pos_side: PosSide,
    i: int,
) -> int {
    match pos_side {
        PosSide::Long => held_at(config, geo, st.pos_long, i),
        PosSide::Short => held_at(config, geo, st.pos_short, i),
    }
}

/// The price at which what level `i` of a side holds is closed: one level nearer to the
/// other side.
pub open spec fn closing_price(
    config: Config,
    geo: StrategyGeometry,
    pos_side: PosSide,
    i: int,
) -> int {
    match pos_side {
        PosSide::Long => round_to(geo.level(1 - i), config.tick_sz as int),
        PosSide::Short => round_to(geo.level(i - 1), config.tick_sz as int),
    }
}

/// Part of a whole number of lots is a whole number of lots.
proof fn lemma_fill_is_whole(total_lots: int, level_lots: int, n: int, i: int, lot: int)
    requires
        lot > 0,
        level_lots >= 0,
        1 <= i <= n,
    ensures
        ({
            let held = fill_at(total_lots * lot, level_lots * lot, n, i);
            let q = level_lots * lot;
            &&& round_to(held, lot) == held
            &&& round_to(q - held, lot) == q - held
            &&& held < lot ==> held == 0
        }),
{
    let q = level_lots * lot;
    let total = total_lots * lot;
    let held = fill_at(total, q, n, i);
    let rest_lots = total_lots - (i - 1) * level_lots;
    assert(total - (i - 1) * q == rest_lots * lot) by (nonlinear_arith)
        requires
            q == level_lots * lot,
            total == total_lots * lot,
            rest_lots == total_lots - (i - 1) * level_lots,
    ;
    assert(0 * lot == 0);
    assert(q >= 0) by (nonlinear_arith)
        requires
            q == level_lots * lot,
            level_lots >= 0,
            lot > 0,
    ;
    lemma_left_step(total, q, n, i);
    let held_lots = if i < n && left_before(total, q, i) > q {
        level_lots
    } else if total > (i - 1) * q {
        rest_lots
    } else {
        0
    };
    assert(held == held_lots * lot);
    lemma_round_to_multiple(held_lots, lot);
    assert(q - held == (level_lots - held_lots) * lot) by (nonlinear_arith)
        requires
            q == level_lots * lot,
            held == held_lots * lot,
    ;
    lemma_round_to_multiple(level_lots - held_lots, lot);
    assert(held_lots >= 1 ==> held_lots * lot >= lot) by (nonlinear_arith)
        requires
            lot > 0,
    ;
    assert(held_lots < 0 ==> held_lots * lot < 0) by (nonlinear_arith)
        requires
            lot > 0,
    ;
}

/// The sizes and prices of candidates are whole numbers of lots and ticks: what the level
/// holds, or lacks, and its price.
pub proof fn lemma_candidate(config: Config, geo: StrategyGeometry, st: WsStateView, j: int)
    requires
        config.wf(),
        geo.wf(),
        0 <= st.pos_long <= LIMIT,
        0 <= st.pos_short <= LIMIT,
        0 <= j < 4 * geo.n,
    ensures
        ({
            let order = candidate(config, geo, st, j);
            let i = rank_of(geo.n as int, j);
            let held = side_held(config, geo, st, order.pos_side, i);
            &&& order.pos_side == if j < 2 * geo.n {
                PosSide::Long
            } else {
                PosSide::Short
            }
            &&& order.size == if j % 2 == 0 {
                held
            } else {
                level_size(config, geo) - held
            }
            &&& order.size == round_to(order.size as int, config.lot_sz as int)
            &&& order.price == round_to(geo.level(order.k as int), config.tick_sz as int)
            &&& j % 2 == 0 ==> order.price == closing_price(config, geo, order.pos_side, i)
            &&& held < config.lot_sz ==> held == 0
        }),
{
    let n = geo.n as int;
    let lot = config.lot_sz as int;
    let i = rank_of(n, j);
    let position = if j < 2 * n {
        st.pos_long
    } else {
        st.pos_short
    };
    let q = level_size(config, geo);
    let total = round_to(position, lot);
    lemma_round_div(position, lot);
    lemma_round_div(geo.q_grid as int, lot);
    assert(total >= 0 && q >= 0) by (nonlinear_arith)
        requires
            total == round_div(position, lot) * lot,
            q == round_div(geo.q_grid as int, lot) * lot,
            round_div(position, lot) >= 0,
            round_div(geo.q_grid as int, lot) >= 0,
            lot > 0,
    ;
    lemma_left_step(total, q, n, i);
    lemma_fill_is_whole(round_div(position, lot), round_div(geo.q_grid as int, lot), n, i, lot);
    let order = candidate(config, geo, st, j);
    assert(-n <= order.k <= n);
    let level = geo.level(order.k as int);
    assert(level == geo.levels@[order.k + n]);
    lemma_round_div(level, config.tick_sz as int);
}

/// The size of the orders among `orders` that close a position.
pub open spec fn closing_size(orders: Seq<IdealOrder>, pos_side: PosSide) -> int
    decreases orders.len(),
{
    if orders.len() == 0 {
        0
    } else {
        let order = orders.last();
        let before = closing_size(orders.drop_last(), pos_side);
        let side = match pos_side {
            PosSide::Long => Side::Sell,
            PosSide::Short => Side::Buy,
        };
        if order.pos_side == pos_side && order.side == side {
            before + order.size
        } else {
            before
        }
    }
}

/// Would an order that closes what level `i` of a side holds rest at the price?
pub open spec fn closing_rests(
    config: Config,
    geo: StrategyGeometry,
    price: int,
    pos_side: PosSide,
    i: int,
) -> bool {
    match pos_side {
        PosSide::Long => closing_price(config, geo, pos_side, i) > price,
        PosSide::Short => closing_price(config, geo, pos_side, i) < price,
    }
}

/// What the levels `1` to `m` of a side hold that can be closed by orders that rest.
pub open spec fn closable_upto(
    config: Config,
    geo: StrategyGeometry,
    st: WsStateView,
    pos_side: PosSide,
    m: int,
) -> int
    decreases m,
{
    if m <= 0 {
        0
    } else {
        closable_upto(config, geo, st, pos_side, m - 1) + if closing_rests(
            config,
            geo,
            st.price,
            pos_side,
            m,
        ) {
            side_held(config, geo, st, pos_side, m)
        } else {
            0
        }
    }
}

/// How many levels of a side have had their closing candidate before `j`.
spec fn closed_before(n: int, pos_side: PosSide, j: int) -> int {
    match pos_side {
        PosSide::Long => if j < 2 * n {
            (j + 1) / 2
        } else {
            n
        },
        PosSide::Short => if j < 2 * n {
            0
        } else {
            (j - 2 * n + 1) / 2
        },
    }
}

proof fn lemma_closing_size(
    config: Config,
    geo: StrategyGeometry,
    st: WsStateView,
    pos_side: PosSide,
    j: int,
)
    requires
        config.wf(),
        geo.wf(),
        0 <= st.pos_long <= LIMIT,
        0 <= st.pos_short <= LIMIT,
        0 <= j <= 4 * geo.n,
    ensures
        closing_size(ideal_before(config, geo, st, j), pos_side) == closable_upto(
            config,
            geo,
            st,
            pos_side,
            closed_before(geo.n as int, pos_side, j),
        ),
    decreases j,
{
    if j > 0 {
        lemma_closing_size(config, geo, st, pos_side, j - 1);
        lemma_candidate(config, geo, st, j - 1);
        let rest = ideal_before(config, geo, st, j - 1);
        let order = candidate(config, geo, st, j - 1);
        assert(rest.push(order).drop_last() == rest);
        let n = geo.n as int;
        let m = closed_before(n, pos_side, j - 1);
        if order.pos_side == pos_side && (j - 1) % 2 == 0 {
            assert(closed_before(n, pos_side, j) == m + 1);
            assert(rank_of(n, j - 1) == m + 1);
        } else {
            assert(closed_before(n, pos_side, j) == m);
        }
    }
}

/// The closing orders of a side that are placed close exactly what its levels hold, but
/// for the levels whose closing order would trade at once. Where there is no such level,
/// they close the whole position, in whole lots.
pub proof fn law_closing_orders_close_the_position(
    config: Config,
    geo: StrategyGeometry,
    st: WsStateView,
    pos_side: PosSide,
)
    requires
        config.wf(),
        geo.wf(),
        0 <= st.pos_long <= LIMIT,
        0 <= st.pos_short <= LIMIT,
    ensures
        closing_size(ideal_orders(config, geo, st), pos_side) == closable_upto(
            config,
            geo,
            st,
            pos_side,
            geo.n as int,
        ),
        (forall|i: int|
            1 <= i <= geo.n ==> #[trigger] closing_rests(config, geo, st.price, pos_side, i))
            ==> closing_size(ideal_orders(config, geo, st), pos_side) == round_to(
            match pos_side {
                PosSide::Long => st.pos_long,
                PosSide::Short => st.pos_short,
            },
            config.lot_sz as int,
        ),
{
    lemma_closing_size(config, geo, st, pos_side, 4 * geo.n);
    if forall|i: int|
        1 <= i <= geo.n ==> #[trigger] closing_rests(config, geo, st.price, pos_side, i) {
        let position = match pos_side {
            PosSide::Long => st.pos_long,
            PosSide::Short => st.pos_short,
        };
        let lot = config.lot_sz as int;
        let total = round_to(position, lot);
        let q = level_size(config, geo);
        lemma_round_div(position, lot);
        lemma_round_div(geo.q_grid as int, lot);
        assert(total >= 0 && q >= 0) by (nonlinear_arith)
            requires
                total == round_div(position, lot) * lot,
                q == round_div(geo.q_grid as int, lot) * lot,
                round_div(position, lot) >= 0,
                round_div(geo.q_grid as int, lot) >= 0,
                lot > 0,
        ;
        law_levels_hold_the_position(total, q, geo.n as int);
        lemma_all_closable(config, geo, st, pos_side, total, geo.n as int);
    }
}

proof fn lemma_all_closable(
    config: Config,
    geo: StrategyGeometry,
    st: WsStateView,
    pos_side: PosSide,
    total: int,
    m: int,
)
    requires
        0 <= m <= geo.n,
        total == round_to(
            match pos_side {
                PosSide::Long => st.pos_long,
                PosSide::Short => st.pos_short,
            },
            config.lot_sz as int,
        ),
        forall|i: int|
            1 <= i <= geo.n ==> #[trigger] closing_rests(config, geo, st.price, pos_side, i),
    ensures
        closable_upto(config, geo, st, pos_side, m) == fills_upto(
            total,
            level_size(config, geo),
            geo.n as int,
            m,
        ),
    decreases m,
{
    if m > 0 {
        lemma_all_closable(config, geo, st, pos_side, total, m - 1);
        assert(closing_rests(config, geo, st.price, pos_side, m));
    }
}

/// The orders of the grid depend on the price and the positions alone.
pub proof fn lemma_ideal_depends(
    config: Config,
    geo: StrategyGeometry,
    a: WsStateView,
    b: WsStateView,
    j: int,
)
    requires
        a.price == b.price,
        a.pos_long == b.pos_long,
        a.pos_short == b.pos_short,
    ensures
        ideal_before(config, geo, a, j) == ideal_before(config, geo, b, j),
    decreases j,
{
    if j > 0 {
        lemma_ideal_depends(config, geo, a, b, j - 1);
    }
}

/// The sizes and prices of the grid's orders are whole numbers of lots and ticks.
pub proof fn lemma_ideal_is_whole(config: Config, geo: StrategyGeometry, st: WsStateView, m: int)
    requires
        config.wf(),
        geo.wf(),
        0 <= st.pos_long <= LIMIT,
        0 <= st.pos_short <= LIMIT,
        0 <= m < ideal_orders(config, geo, st).len(),
    ensures
        ({
            let order = ideal_orders(config, geo, st)[m];
            &&& order.size == round_div(order.size as int, config.lot_sz as int) * config.lot_sz
            &&& exists|x: int| order.price == #[trigger] round_div(x, config.tick_sz as int)
                * config.tick_sz
        }),
{
    lemma_ideal_are_candidates(config, geo, st, 4 * geo.n);
    let w = choose|w: int|
        0 <= w < 4 * geo.n && #[trigger] candidate(config, geo, st, w) == ideal_orders(
            config,
            geo,
            st,
        )[m];
    lemma_candidate(config, geo, st, w);
    let order = candidate(config, geo, st, w);
    assert(order.price == round_div(geo.level(order.k as int), config.tick_sz as int)
        * config.tick_sz);
}

proof fn lemma_placed_candidate(
    config: Config,
    geo: StrategyGeometry,
    st: WsStateView,
    w: int,
    j: int,
)
    requires
        0 <= w < j,
        is_placeable(config, st.price, candidate(config, geo, st, w)),
    ensures
        ideal_before(config, geo, st, j).contains(candidate(config, geo, st, w)),
    decreases j,
{
    let all = ideal_before(config, geo, st, j);
    if w == j - 1 {
        assert(all[all.len() - 1] == candidate(config, geo, st, w));
    } else {
        lemma_placed_candidate(config, geo, st, w, j - 1);
        let rest = ideal_before(config, geo, st, j - 1);
        let i = rest.index_of(candidate(config, geo, st, w));
        assert(all[i] == rest[i]);
    }
}

/// An order of the grid in the slot of a candidate is that candidate, and may be placed.
proof fn lemma_slot_is_of_candidate(
    config: Config,
    geo: StrategyGeometry,
    st: WsStateView,
    w: int,
    m: int,
)
    requires
        geo.wf(),
        0 <= w < 4 * geo.n,
        0 <= m < ideal_orders(config, geo, st).len(),
        ideal_orders(config, geo, st)[m].slot() == candidate(config, geo, st, w).slot(),
    ensures
        ideal_orders(config, geo, st)[m] == candidate(config, geo, st, w),
        is_placeable(config, st.price, candidate(config, geo, st, w)),
{
    let all = ideal_orders(config, geo, st);
    lemma_ideal_are_candidates(config, geo, st, 4 * geo.n);
    let v = choose|v: int|
        0 <= v < 4 * geo.n && #[trigger] candidate(config, geo, st, v) == all[m];
    if v < w {
        lemma_candidates_differ(config, geo, st, v, w);
    }
    if w < v {
        lemma_candidates_differ(config, geo, st, w, v);
    }
    assert(is_placeable(config, st.price, all[m]));
}

/// The long side: level `i` below the centre holds its part of the position, the levels
/// filling up from the first, the last one taking what is left. What it lacks of a full
/// level is bought at level `-i`, where that is at least a lot and lies below the price;
/// what it holds is sold one level higher, where that is at least a lot and lies above the
/// price. There is no other order in either slot.
pub proof fn law_long_side(config: Config, geo: StrategyGeometry, st: WsStateView, i: int)
    requires
        config.wf(),
        geo.wf(),
        0 <= st.pos_long <= LIMIT,
        0 <= st.pos_short <= LIMIT,
        1 <= i <= geo.n,
    ensures
        ({
            let orders = ideal_orders(config, geo, st);
            let q = round_to(geo.q_grid as int, config.lot_sz as int);
            let before = (i - 1) * q;
            let total = round_to(st.pos_long, config.lot_sz as int);
            let held = if total <= before {
                0
            } else if i < geo.n && total - before > q {
                q
            } else {
                total - before
            };
            let buy_price = round_to(geo.levels@[geo.n - i] as int, config.tick_sz as int);
            let sell_price = round_to(geo.levels@[geo.n - i + 1] as int, config.tick_sz as int);
            let buy = IdealOrder {
                pos_side: PosSide::Long,
                side: Side::Buy,
                k: (-i) as i32,
                size: (q - held) as i128,
                price: buy_price as i128,
            };
            let sell = IdealOrder {
                pos_side: PosSide::Long,
                side: Side::Sell,
                k: (1 - i) as i32,
                size: held as i128,
                price: sell_price as i128,
            };
            &&& buy.k == -i && buy.size == q - held && buy.price == buy_price
            &&& sell.k == 1 - i && sell.size == held && sell.price == sell_price
            &&& if q - held >= config.lot_sz - 10_000 && buy_price < st.price {
                orders.contains(buy)
            } else {
                forall|m: int|
                    0 <= m < orders.len() ==> !((#[trigger] orders[m]).pos_side == PosSide::Long
                        && orders[m].side == Side::Buy && orders[m].k == -i)
            }
            &&& if held >= config.lot_sz - 10_000 && sell_price > st.price {
                orders.contains(sell)
            } else {
                forall|m: int|
                    0 <= m < orders.len() ==> !((#[trigger] orders[m]).pos_side == PosSide::Long
                        && orders[m].side == Side::Sell && orders[m].k == 1 - i)
            }
        }),
{
    let w = 2 * (i - 1);
    let orders = ideal_orders(config, geo, st);
    assert(rank_of(geo.n as int, w) == i && rank_of(geo.n as int, w + 1) == i);
    lemma_candidate(config, geo, st, w);
    lemma_candidate(config, geo, st, w + 1);
    let sell = candidate(config, geo, st, w);
    let buy = candidate(config, geo, st, w + 1);
    assert(sell.k == 1 - i && sell.side == Side::Sell && sell.pos_side == PosSide::Long);
    assert(buy.k == -i && buy.side == Side::Buy && buy.pos_side == PosSide::Long);
    if is_placeable(config, st.price, sell) {
        lemma_placed_candidate(config, geo, st, w, 4 * geo.n);
    } else {
        assert forall|m: int| 0 <= m < orders.len() implies !((#[trigger] orders[m]).pos_side
            == PosSide::Long && orders[m].side == Side::Sell && orders[m].k == 1 - i) by {
            if orders[m].slot() == sell.slot() {
                lemma_slot_is_of_candidate(config, geo, st, w, m);
            }
        }
    }
    if is_placeable(config, st.price, buy) {
        lemma_placed_candidate(config, geo, st, w + 1, 4 * geo.n);
    } else {
        assert forall|m: int| 0 <= m < orders.len() implies !((#[trigger] orders[m]).pos_side
            == PosSide::Long && orders[m].side == Side::Buy && orders[m].k == -i) by {
            if orders[m].slot() == buy.slot() {
                lemma_slot_is_of_candidate(config, geo, st, w + 1, m);
            }
        }
    }
}

/// The short side: level `i` above the centre holds its part of the position, as on the
/// long side. What it lacks of a full level is sold at level `i`, where that is at least a
/// lot and lies above the price; what it holds is bought back one level lower, where that
/// is at least a lot and lies below the price. There is no other order in either slot.
pub proof fn law_short_side(config: Config, geo: StrategyGeometry, st: WsStateView, i: int)
    requires
        config.wf(),
        geo.wf(),
        0 <= st.pos_long <= LIMIT,
        0 <= st.pos_short <= LIMIT,
        1 <= i <= geo.n,
    ensures
        ({
            let orders = ideal_orders(config, geo, st);
            let q = round_to(geo.q_grid as int, config.lot_sz as int);
            let before = (i - 1) * q;
            let total = round_to(st.pos_short, config.lot_sz as int);
            let held = if total <= before {
                0
            } else if i < geo.n && total - before > q {
                q
            } else {
                total - before
            };
            let sell_price = round_to(geo.levels@[geo.n + i] as int, config.tick_sz as int);
            let buy_price = round_to(geo.levels@[geo.n + i - 1] as int, config.tick_sz as int);
            let sell = IdealOrder {
                pos_side: PosSide::Short,
                side: Side::Sell,
                k: i as i32,
                size: (q - held) as i128,
                price: sell_price as i128,
            };
            let buy = IdealOrder {
                pos_side: PosSide::Short,
                side: Side::Buy,
                k: (i - 1) as i32,
                size: held as i128,
                price: buy_price as i128,
            };
            &&& sell.k == i && sell.size == q - held && sell.price == sell_price
            &&& buy.k == i - 1 && buy.size == held && buy.price == buy_price
            &&& if q - held >= config.lot_sz - 10_000 && sell_price > st.price {
                orders.contains(sell)
            } else {
                forall|m: int|
                    0 <= m < orders.len() ==> !((#[trigger] orders[m]).pos_side == PosSide::Short
                        && orders[m].side == Side::Sell && orders[m].k == i)
            }
            &&& if held >= config.lot_sz - 10_000 && buy_price < st.price {
                orders.contains(buy)
            } else {
                forall|m: int|
                    0 <= m < orders.len() ==> !((#[trigger] orders[m]).pos_side == PosSide::Short
                        && orders[m].side == Side::Buy && orders[m].k == i - 1)
            }
        }),
{
    let w = 2 * geo.n + 2 * (i - 1);
    let orders = ideal_orders(config, geo, st);
    assert(rank_of(geo.n as int, w) == i && rank_of(geo.n as int, w + 1) == i);
    lemma_candidate(config, geo, st, w);
    lemma_candidate(config, geo, st, w + 1);
    let buy = candidate(config, geo, st, w);
    let sell = candidate(config, geo, st, w + 1);
    assert(buy.k == i - 1 && buy.side == Side::Buy && buy.pos_side == PosSide::Short);
    assert(sell.k == i && sell.side == Side::Sell && sell.pos_side == PosSide::Short);
    if is_placeable(config, st.price, buy) {
        lemma_placed_candidate(config, geo, st, w, 4 * geo.n);
    } else {
        assert forall|m: int| 0 <= m < orders.len() implies !((#[trigger] orders[m]).pos_side
            == PosSide::Short && orders[m].side == Side::Buy && orders[m].k == i - 1) by {
            if orders[m].slot() == buy.slot() {
                lemma_slot_is_of_candidate(config, geo, st, w, m);
            }
        }
    }
    if is_placeable(config, st.price, sell) {
        lemma_placed_candidate(config, geo, st, w + 1, 4 * geo.n);
    } else {
        assert forall|m: int| 0 <= m < orders.len() implies !((#[trigger] orders[m]).pos_side
            == PosSide::Short && orders[m].side == Side::Sell && orders[m].k == i) by {
            if orders[m].slot() == sell.slot() {
                lemma_slot_is_of_candidate(config, geo, st, w + 1, m);
            }
        }
    }
}

/// The grid has no other orders: long purchases at the levels `-n` to `-1` and long sales
/// at `1 - n` to `0`, short sales at `1` to `n` and short purchases at `0` to `n - 1`.
pub proof fn law_no_order_off_the_grid(
    config: Config,
    geo: StrategyGeometry,
    st: WsStateView,
    m: int,
)
    requires
        geo.wf(),
        0 <= m < ideal_orders(config, geo, st).len(),
    ensures
        ({
            let order = ideal_orders(config, geo, st)[m];
            match (order.pos_side, order.side) {
                (PosSide::Long, Side::Buy) => -geo.n <= order.k <= -1,
                (PosSide::Long, Side::Sell) => 1 - geo.n <= order.k <= 0,
                (PosSide::Short, Side::Sell) => 1 <= order.k <= geo.n,
                (PosSide::Short, Side::Buy) => 0 <= order.k <= geo.n - 1,
            }
        }),
{
    lemma_ideal_are_candidates(config, geo, st, 4 * geo.n);
    let w = choose|w: int|
        0 <= w < 4 * geo.n && #[trigger] candidate(config, geo, st, w) == ideal_orders(
            config,
            geo,
            st,
        )[m];
}

/// In each slot of the grid there is at most one order.
pub proof fn law_one_order_in_a_slot(
    config: Config,
    geo: StrategyGeometry,
    st: WsStateView,
    a: int,
    b: int,
)
    requires
        geo.wf(),
        0 <= a < b < ideal_orders(config, geo, st).len(),
    ensures
        ({
            let x = ideal_orders(config, geo, st)[a];
            let y = ideal_orders(config, geo, st)[b];
            x.pos_side != y.pos_side || x.side != y.side || x.k != y.k
        }),
{
    law_slots_differ(config, geo, st);
    let x = ideal_orders(config, geo, st)[a];
    let y = ideal_orders(config, geo, st)[b];
    assert(x.slot() != y.slot());
}

}
