//! Reconciliation: which open orders to cancel and which orders to place, so that the
//! open orders become those that the grid should have.
use crate::amount::{
    amount_of, amount_or_zero, distance, in_range, lemma_round_to_multiple, near_range, round_div,
    round_to, DECIMALS, LIMIT,
};
use crate::book::{amounts_in_range, by_id, has_id, ids_differ, place_of, OpenOrder};
use crate::decimal::{fixed_text, law_multiple_of_step_is_read_back, needed_decimals};
use crate::geometry::{format_float, Config, StrategyGeometry};
use crate::grid::{
    ideal_in_range, ideal_orders, law_slots_differ, lemma_ideal_depends, lemma_ideal_is_whole,
    lemma_levels_in_grid, list_ideal_orders, slots_differ, IdealOrder,
};
use crate::json::JsonView;
use crate::models::{
    format_cl_ord_id, id_mark, id_text, next_count, parse_cl_ord_id, slot_of, OrderCommand,
    OrderCounter, WsCommand,
};
use crate::state::{has_id_mark, note_order, Noticed, WsState, WsStateView};
use crate::text::texts;
use vstd::prelude::*;

verus! {

/// An open order stands for an order of the grid: its client order id names the slot, and
/// size and price are within a tenth of a lot and of a tick.
pub open spec fn stands_for(config: Config, open: OpenOrder, ideal: IdealOrder) -> bool {
    &&& slot_of(open.id@) == Some(ideal.slot())
    &&& 10 * distance(open.size as int, ideal.size as int) < config.lot_sz
    &&& 10 * distance(open.price as int, ideal.price as int) < config.tick_sz
}

/// An open order stands for some order of the grid.
pub open spec fn is_wanted(config: Config, ideal: Seq<IdealOrder>, open: OpenOrder) -> bool {
    exists|m: int| 0 <= m < ideal.len() && stands_for(config, open, #[trigger] ideal[m])
}

/// Open order `j` is kept: it is wanted, and no wanted one before it has its slot.
pub open spec fn is_kept(
    config: Config,
    ideal: Seq<IdealOrder>,
    entries: Seq<OpenOrder>,
    j: int,
) -> bool {
    &&& is_wanted(config, ideal, entries[j])
    &&& forall|i: int|
        0 <= i < j && slot_of((#[trigger] entries[i]).id@) == slot_of(entries[j].id@)
            ==> !is_wanted(config, ideal, entries[i])
}

/// The grid's open orders before `j` that are not kept.
pub open spec fn cancels_before(
    config: Config,
    ideal: Seq<IdealOrder>,
    entries: Seq<OpenOrder>,
    j: int,
) -> Seq<Seq<char>>
    decreases j,
{
    if j <= 0 {
        Seq::empty()
    } else {
        let rest = cancels_before(config, ideal, entries, j - 1);
        if !is_kept(config, ideal, entries, j - 1) && id_mark().is_prefix_of(entries[j - 1].id@) {
            rest.push(entries[j - 1].id@)
        } else {
            rest
        }
    }
}

/// The client order ids to cancel.
pub open spec fn cancels(
    config: Config,
    ideal: Seq<IdealOrder>,
    entries: Seq<OpenOrder>,
) -> Seq<Seq<char>> {
    cancels_before(config, ideal, entries, entries.len() as int)
}

/// Some open order stands for this order of the grid.
pub open spec fn is_covered(config: Config, entries: Seq<OpenOrder>, order: IdealOrder) -> bool {
    exists|i: int| 0 <= i < entries.len() && stands_for(config, #[trigger] entries[i], order)
}

/// The orders before `m` that no open order stands for.
pub open spec fn missing_before(
    config: Config,
    ideal: Seq<IdealOrder>,
    entries: Seq<OpenOrder>,
    m: int,
) -> Seq<IdealOrder>
    decreases m,
{
    if m <= 0 {
        Seq::empty()
    } else {
        let rest = missing_before(config, ideal, entries, m - 1);
        if is_covered(config, entries, ideal[m - 1]) {
            rest
        } else {
            rest.push(ideal[m - 1])
        }
    }
}

/// The orders to place.
pub open spec fn missing(
    config: Config,
    ideal: Seq<IdealOrder>,
    entries: Seq<OpenOrder>,
) -> Seq<IdealOrder> {
    missing_before(config, ideal, entries, ideal.len() as int)
}

/// What a scan asks for.
pub struct ScanPlan {
    /// The client order ids to cancel.
    pub cancel: Vec<String>,
    /// The orders to place.
    pub place: Vec<IdealOrder>,
}

/// Are two amounts closer than a tenth of a step?
fn is_close(a: i128, b: i128, step: i128) -> (r: bool)
    requires
        near_range(a as int),
        near_range(b as int),
    ensures
        r == (10 * distance(a as int, b as int) < step),
{
    if a >= b {
        10 * (a - b) < step
    } else {
        10 * (b - a) < step
    }
}

/// The order of the grid that an open order stands for.
fn find_ideal(config: &Config, ideal: &Vec<IdealOrder>, open: &OpenOrder) -> (r: Option<usize>)
    requires
        ideal_in_range(ideal@),
        in_range(open.size as int),
        in_range(open.price as int),
    ensures
        r is Some <==> is_wanted(*config, ideal@, *open),
        r matches Some(m) ==> m < ideal@.len() && stands_for(*config, *open, ideal@[m as int]),
{
    let slot = match parse_cl_ord_id(open.id.as_str()) {
        Some(slot) => slot,
        None => {
            return None;
        },
    };
    let mut m: usize = 0;
    while m < ideal.len()
        invariant
            m <= ideal@.len(),
            slot_of(open.id@) == Some(slot),
            ideal_in_range(ideal@),
            in_range(open.size as int),
            in_range(open.price as int),
            forall|i: int| 0 <= i < m ==> !stands_for(*config, *open, #[trigger] ideal@[i]),
        decreases ideal@.len() - m,
    {
        let order = ideal[m];
        if order.pos_side == slot.0 && order.side == slot.1 && order.k == slot.2 && is_close(
            open.size,
            order.size,
            config.lot_sz,
        ) && is_close(open.price, order.price, config.tick_sz) {
            return Some(m);
        }
        m = m + 1;
    }
    None
}

/// Compares the open orders with those that the grid should have.
pub fn plan(config: &Config, ideal: &Vec<IdealOrder>, entries: &Vec<OpenOrder>) -> (r: ScanPlan)
    requires
        slots_differ(ideal@),
        ideal_in_range(ideal@),
        amounts_in_range(entries@),
    ensures
        texts(r.cancel@) == cancels(*config, ideal@, entries@),
        r.place@ == missing(*config, ideal@, entries@),
{
    let mut taken: Vec<bool> = Vec::new();
    let mut t: usize = 0;
    while t < ideal.len()
        invariant
            t <= ideal@.len(),
            taken@.len() == t,
            forall|m: int| 0 <= m < t ==> !#[trigger] taken@[m],
        decreases ideal@.len() - t,
    {
        taken.push(false);
        t = t + 1;
    }
    let mut cancel: Vec<String> = Vec::new();
    let mut j: usize = 0;
    assert(texts(cancel@) == Seq::<Seq<char>>::empty());
    while j < entries.len()
        invariant
            j <= entries@.len(),
            slots_differ(ideal@),
            ideal_in_range(ideal@),
            amounts_in_range(entries@),
            taken@.len() == ideal@.len(),
            forall|m: int|
                0 <= m < ideal@.len() ==> #[trigger] taken@[m] == exists|i: int|
                    0 <= i < j && stands_for(*config, #[trigger] entries@[i], ideal@[m]),
            texts(cancel@) == cancels_before(*config, ideal@, entries@, j as int),
        decreases entries@.len() - j,
    {
        let open = &entries[j];
        let found = find_ideal(config, ideal, open);
        let keep = match found {
            Some(m) => !taken[m],
            None => false,
        };
        let ghost was = taken@;
        proof {
            if let Some(m) = found {
                if keep {
                    assert forall|i: int|
                        0 <= i < j && slot_of((#[trigger] entries@[i]).id@) == slot_of(
                            entries@[j as int].id@,
                        ) implies !is_wanted(*config, ideal@, entries@[i]) by {
                        if is_wanted(*config, ideal@, entries@[i]) {
                            let w = choose|w: int|
                                0 <= w < ideal@.len() && stands_for(
                                    *config,
                                    entries@[i],
                                    #[trigger] ideal@[w],
                                );
                            assert(ideal@[w].slot() == ideal@[m as int].slot());
                            assert(w == m);
                            assert(taken@[m as int]);
                        }
                    }
                } else {
                    let i = choose|i: int|
                        0 <= i < j && stands_for(
                            *config,
                            #[trigger] entries@[i],
                            ideal@[m as int],
                        );
                    assert(is_wanted(*config, ideal@, entries@[i]));
                    assert(slot_of(entries@[i].id@) == slot_of(entries@[j as int].id@));
                }
            }
            assert(keep == is_kept(*config, ideal@, entries@, j as int));
        }
        if keep {
            if let Some(m) = found {
                taken.set(m, true);
            }
        } else if has_id_mark(open.id.as_str()) {
            let ghost before = cancel@;
            cancel.push(open.id.clone());
            assert(texts(cancel@) == texts(before).push(open.id@));
        }
        j = j + 1;
        proof {
            assert forall|m: int| 0 <= m < ideal@.len() implies #[trigger] taken@[m] == exists|
                i: int,
            |
                0 <= i < j && stands_for(*config, #[trigger] entries@[i], ideal@[m]) by {
                let last = j - 1;
                if stands_for(*config, entries@[last], ideal@[m]) {
                    assert(is_wanted(*config, ideal@, entries@[last]));
                    let x = found->0 as int;
                    assert(ideal@[x].slot() == ideal@[m].slot());
                    assert(x == m);
                    assert(taken@[m]);
                }
                if was[m] {
                    let i = choose|i: int|
                        0 <= i < last && stands_for(*config, #[trigger] entries@[i], ideal@[m]);
                    assert(stands_for(*config, entries@[i], ideal@[m]));
                }
                if exists|i: int|
                    0 <= i < j && stands_for(*config, #[trigger] entries@[i], ideal@[m]) {
                    let i = choose|i: int|
                        0 <= i < j && stands_for(*config, #[trigger] entries@[i], ideal@[m]);
                    if i < last {
                        assert(was[m]);
                    }
                }
            }
        }
    }
    let mut place: Vec<IdealOrder> = Vec::new();
    let mut m: usize = 0;
    while m < ideal.len()
        invariant
            m <= ideal@.len(),
            taken@.len() == ideal@.len(),
            forall|m: int|
                0 <= m < ideal@.len() ==> #[trigger] taken@[m] == is_covered(
                    *config,
                    entries@,
                    ideal@[m],
                ),
            place@ == missing_before(*config, ideal@, entries@, m as int),
        decreases ideal@.len() - m,
    {
        if !taken[m] {
            place.push(ideal[m]);
        }
        m = m + 1;
    }
    ScanPlan { cancel, place }
}

/// The order to be placed is this one of the grid: its sides, and its price and size in
/// text.
pub open spec fn is_order_for(
    config: Config,
    geo: StrategyGeometry,
    command: OrderCommand,
    order: IdealOrder,
) -> bool {
    &&& command.pos_side == order.pos_side
    &&& command.side == order.side
    &&& command.price@ == fixed_text(
        round_to(order.price as int, config.tick_sz as int),
        DECIMALS as nat,
        geo.tick_decimals as nat,
    )
    &&& command.size@ == fixed_text(
        round_to(order.size as int, config.lot_sz as int),
        DECIMALS as nat,
        geo.lot_decimals as nat,
    )
}

/// The command that places an order of the grid under a client order id.
pub fn order_command(
    config: &Config,
    geo: &StrategyGeometry,
    order: &IdealOrder,
    cl_ord_id: String,
) -> (command: OrderCommand)
    requires
        config.wf(),
        near_range(order.size as int),
        near_range(order.price as int),
    ensures
        is_order_for(*config, *geo, command, *order),
        command.cl_ord_id == cl_ord_id,
{
    OrderCommand {
        cl_ord_id,
        pos_side: order.pos_side,
        side: order.side,
        price: format_float(order.price, config.tick_sz, geo.tick_decimals),
        size: format_float(order.size, config.lot_sz, geo.lot_decimals),
    }
}

/// A counter at `count`, `i` steps later.
pub open spec fn count_after(count: usize, i: int) -> usize
    decreases i,
{
    if i <= 0 {
        count
    } else {
        next_count(count_after(count, i - 1))
    }
}

/// The client order id was written for the slot of the order at this count, with some
/// random word.
pub open spec fn is_id_for(id: Seq<char>, order: IdealOrder, count: usize) -> bool {
    exists|word: u64|
        id == #[trigger] id_text(order.pos_side, order.side, order.k as int, word, count)
}

/// The commands place the orders, one for one, under ids that are counted on from `count`.
pub open spec fn places(
    config: Config,
    geo: StrategyGeometry,
    commands: Seq<OrderCommand>,
    orders: Seq<IdealOrder>,
    count: usize,
) -> bool {
    &&& commands.len() == orders.len()
    &&& forall|i: int|
        #![trigger commands[i]]
        0 <= i < commands.len() ==> {
            &&& is_order_for(config, geo, commands[i], orders[i])
            &&& is_id_for(commands[i].cl_ord_id@, orders[i], count_after(count, i))
            &&& slot_of(commands[i].cl_ord_id@) == Some(orders[i].slot())
        }
}

/// The commands ask for these cancellations, if any, and then for these orders, if any.
pub open spec fn asks_for(
    config: Config,
    geo: StrategyGeometry,
    commands: Seq<WsCommand>,
    cancel: Seq<Seq<char>>,
    place: Seq<IdealOrder>,
    count: usize,
) -> bool {
    let first: int = if cancel.len() > 0 {
        1
    } else {
        0
    };
    &&& commands.len() == first + if place.len() > 0 {
        1int
    } else {
        0
    }
    &&& cancel.len() > 0 ==> (commands[0] matches WsCommand::Cancel(ids) && texts(ids@) == cancel)
    &&& place.len() > 0 ==> (commands[first] matches WsCommand::Place(orders) && places(
        config,
        geo,
        orders@,
        place,
        count,
    ))
}

/// Writes the commands that place orders of the grid.
fn place_all(
    config: &Config,
    geo: &StrategyGeometry,
    orders: &Vec<IdealOrder>,
    counter: &mut OrderCounter,
) -> (commands: Vec<OrderCommand>)
    requires
        config.wf(),
        ideal_in_range(orders@),
        forall|m: int| 0 <= m < orders@.len() ==> (#[trigger] orders@[m]).k > i32::MIN,
    ensures
        places(*config, *geo, commands@, orders@, old(counter)@),
        final(counter)@ == count_after(old(counter)@, orders@.len() as int),
{
    let mut commands: Vec<OrderCommand> = Vec::new();
    let mut i: usize = 0;
    let ghost start = counter@;
    while i < orders.len()
        invariant
            i <= orders@.len(),
            config.wf(),
            ideal_in_range(orders@),
            forall|m: int| 0 <= m < orders@.len() ==> (#[trigger] orders@[m]).k > i32::MIN,
            counter@ == count_after(start, i as int),
            places(*config, *geo, commands@, orders@.take(i as int), start),
        decreases orders@.len() - i,
    {
        let order = &orders[i];
        let id = format_cl_ord_id(counter, order.pos_side, order.side, order.k);
        assert(is_id_for(id@, *order, count_after(start, i as int)));
        commands.push(order_command(config, geo, order, id));
        i = i + 1;
        assert(orders@.take(i as int) == orders@.take(i - 1).push(*order));
    }
    assert(orders@.take(i as int) == orders@);
    commands
}

/// Looks at the price, the positions and the open orders, and asks for what brings the
/// open orders to those that the grid should have. Without a price it asks for nothing.
pub fn reconciliation_scan(
    config: &Config,
    geo: &StrategyGeometry,
    state: &WsState,
    counter: &mut OrderCounter,
) -> (commands: Vec<WsCommand>)
    requires
        config.wf(),
        geo.wf(),
        state.wf(),
    ensures
        state.price <= 0 ==> commands@.len() == 0 && final(counter)@ == old(counter)@,
        state.price > 0 ==> {
            let ideal = ideal_orders(*config, *geo, state@);
            let entries = state.open_orders.walk();
            &&& asks_for(
                *config,
                *geo,
                commands@,
                cancels(*config, ideal, entries),
                missing(*config, ideal, entries),
                old(counter)@,
            )
            &&& final(counter)@ == count_after(
                old(counter)@,
                missing(*config, ideal, entries).len() as int,
            )
        },
{
    let mut commands: Vec<WsCommand> = Vec::new();
    if state.price <= 0 {
        return commands;
    }
    let ideal = list_ideal_orders(config, geo, state);
    let asked = plan(config, &ideal, state.open_orders.entries());
    proof {
        lemma_missing_are_ideal(*config, ideal@, state.open_orders.walk(), ideal@.len() as int);
        lemma_levels_in_grid(*config, *geo, state@);
        assert(texts(asked.cancel@).len() == asked.cancel@.len());
    }
    if asked.cancel.len() > 0 {
        commands.push(WsCommand::Cancel(asked.cancel));
    }
    if asked.place.len() > 0 {
        let orders = place_all(config, geo, &asked.place, counter);
        commands.push(WsCommand::Place(orders));
    }
    commands
}

/// The orders to place are orders of the grid that no open order stands for.
proof fn lemma_missing_are_ideal(
    config: Config,
    ideal: Seq<IdealOrder>,
    entries: Seq<OpenOrder>,
    m: int,
)
    requires
        0 <= m <= ideal.len(),
    ensures
        forall|i: int|
            0 <= i < missing_before(config, ideal, entries, m).len() ==> exists|w: int|
                0 <= w < m && #[trigger] ideal[w] == #[trigger] missing_before(
                    config,
                    ideal,
                    entries,
                    m,
                )[i] && !is_covered(config, entries, ideal[w]),
    decreases m,
{
    if m > 0 {
        lemma_missing_are_ideal(config, ideal, entries, m - 1);
        let rest = missing_before(config, ideal, entries, m - 1);
        let found = missing_before(config, ideal, entries, m);
        assert forall|i: int| 0 <= i < found.len() implies exists|w: int|
            0 <= w < m && #[trigger] ideal[w] == #[trigger] found[i] && !is_covered(
                config,
                entries,
                ideal[w],
            ) by {
            if i < rest.len() {
                assert(found[i] == rest[i]);
            } else {
                assert(found[i] == ideal[m - 1]);
            }
        }
    }
}

/// The open orders before `j` that are not cancelled.
pub open spec fn survivors_before(
    config: Config,
    ideal: Seq<IdealOrder>,
    entries: Seq<OpenOrder>,
    j: int,
) -> Seq<OpenOrder>
    decreases j,
{
    if j <= 0 {
        Seq::empty()
    } else {
        let rest = survivors_before(config, ideal, entries, j - 1);
        if survives(config, ideal, entries, j - 1) {
            rest.push(entries[j - 1])
        } else {
            rest
        }
    }
}

/// Open order `j` is not cancelled: it is kept, or it is not the grid's.
pub open spec fn survives(
    config: Config,
    ideal: Seq<IdealOrder>,
    entries: Seq<OpenOrder>,
    j: int,
) -> bool {
    is_kept(config, ideal, entries, j) || !id_mark().is_prefix_of(entries[j].id@)
}

/// The open orders that are left when the cancellations of a scan are done.
pub open spec fn survivors(
    config: Config,
    ideal: Seq<IdealOrder>,
    entries: Seq<OpenOrder>,
) -> Seq<OpenOrder> {
    survivors_before(config, ideal, entries, entries.len() as int)
}

/// The orders were opened as the grid should have them.
pub open spec fn opened_as(placed: Seq<OpenOrder>, orders: Seq<IdealOrder>) -> bool {
    &&& placed.len() == orders.len()
    &&& forall|i: int|
        #![trigger placed[i]]
        0 <= i < placed.len() ==> {
            &&& slot_of(placed[i].id@) == Some(orders[i].slot())
            &&& placed[i].size == orders[i].size
            &&& placed[i].price == orders[i].price
        }
}

/// `x` and behind it `y` are among the open orders before `j` that survive.
spec fn survive_in_order(
    config: Config,
    ideal: Seq<IdealOrder>,
    entries: Seq<OpenOrder>,
    j: int,
    x: OpenOrder,
    y: OpenOrder,
) -> bool {
    exists|v: int, w: int|
        0 <= v < w < j && #[trigger] entries[v] == x && #[trigger] entries[w] == y && survives(
            config,
            ideal,
            entries,
            v,
        ) && survives(config, ideal, entries, w)
}

/// Survivors come from the open orders, in their order.
proof fn lemma_survivors(
    config: Config,
    ideal: Seq<IdealOrder>,
    entries: Seq<OpenOrder>,
    j: int,
    left: Seq<OpenOrder>,
)
    requires
        0 <= j <= entries.len(),
        left == survivors_before(config, ideal, entries, j),
    ensures
        forall|a: int|
            0 <= a < left.len() ==> exists|w: int|
                0 <= w < j && #[trigger] entries[w] == #[trigger] left[a] && survives(
                    config,
                    ideal,
                    entries,
                    w,
                ),
        forall|a: int, b: int|
            0 <= a < b < left.len() ==> survive_in_order(
                config,
                ideal,
                entries,
                j,
                #[trigger] left[a],
                #[trigger] left[b],
            ),
        forall|w: int|
            0 <= w < j && survives(config, ideal, entries, w) ==> left.contains(
                #[trigger] entries[w],
            ),
    decreases j,
{
    if j > 0 {
        let rest = survivors_before(config, ideal, entries, j - 1);
        lemma_survivors(config, ideal, entries, j - 1, rest);
        assert forall|a: int| 0 <= a < left.len() implies exists|w: int|
            0 <= w < j && #[trigger] entries[w] == #[trigger] left[a] && survives(
                config,
                ideal,
                entries,
                w,
            ) by {
            if a < rest.len() {
                assert(left[a] == rest[a]);
            } else {
                assert(left[a] == entries[j - 1]);
            }
        }
        assert forall|a: int, b: int| 0 <= a < b < left.len() implies survive_in_order(
            config,
            ideal,
            entries,
            j,
            #[trigger] left[a],
            #[trigger] left[b],
        ) by {
            assert(left[a] == rest[a]);
            if b < rest.len() {
                assert(left[b] == rest[b]);
                assert(survive_in_order(config, ideal, entries, j - 1, rest[a], rest[b]));
            } else {
                assert(left[b] == entries[j - 1]);
                let v = choose|v: int|
                    0 <= v < j - 1 && #[trigger] entries[v] == rest[a] && survives(
                        config,
                        ideal,
                        entries,
                        v,
                    );
                assert(entries[v] == left[a]);
            }
        }
        assert forall|w: int|
            0 <= w < j && survives(config, ideal, entries, w) implies left.contains(
            #[trigger] entries[w],
        ) by {
            if w < j - 1 {
                let a = choose|a: int| 0 <= a < rest.len() && rest[a] == entries[w];
                assert(left[a] == entries[w]);
            } else {
                assert(left[left.len() - 1] == entries[w]);
            }
        }
    }
}

/// The orders to place belong to different slots.
proof fn lemma_missing_differ(
    config: Config,
    ideal: Seq<IdealOrder>,
    entries: Seq<OpenOrder>,
    m: int,
)
    requires
        0 <= m <= ideal.len(),
        slots_differ(ideal),
    ensures
        slots_differ(missing_before(config, ideal, entries, m)),
        forall|w: int|
            0 <= w < m && !is_covered(config, entries, ideal[w]) ==> missing_before(
                config,
                ideal,
                entries,
                m,
            ).contains(#[trigger] ideal[w]),
    decreases m,
{
    if m > 0 {
        lemma_missing_differ(config, ideal, entries, m - 1);
        lemma_missing_are_ideal(config, ideal, entries, m - 1);
        let rest = missing_before(config, ideal, entries, m - 1);
        let all = missing_before(config, ideal, entries, m);
        assert forall|a: int, b: int| 0 <= a < b < all.len() implies (#[trigger] all[a]).slot()
            != (#[trigger] all[b]).slot() by {
            assert(all[a] == rest[a]);
            if b < rest.len() {
                assert(all[b] == rest[b]);
            } else {
                let w = choose|w: int|
                    0 <= w < m - 1 && #[trigger] ideal[w] == rest[a] && !is_covered(
                        config,
                        entries,
                        ideal[w],
                    );
                assert(ideal[w].slot() != ideal[m - 1].slot());
            }
        }
        assert forall|w: int|
            0 <= w < m && !is_covered(config, entries, ideal[w]) implies all.contains(
            #[trigger] ideal[w],
        ) by {
            if w < m - 1 {
                let a = choose|a: int| 0 <= a < rest.len() && rest[a] == ideal[w];
                assert(all[a] == ideal[w]);
            } else {
                assert(all[all.len() - 1] == ideal[w]);
            }
        }
    }
}

/// Where every open order survives, nothing is cancelled.
proof fn lemma_no_cancels(
    config: Config,
    ideal: Seq<IdealOrder>,
    entries: Seq<OpenOrder>,
    j: int,
)
    requires
        0 <= j <= entries.len(),
        forall|i: int|
            0 <= i < entries.len() ==> #[trigger] survives(config, ideal, entries, i),
    ensures
        cancels_before(config, ideal, entries, j).len() == 0,
    decreases j,
{
    if j > 0 {
        lemma_no_cancels(config, ideal, entries, j - 1);
        assert(survives(config, ideal, entries, j - 1));
    }
}

/// Where every order of the grid is covered, nothing is placed.
proof fn lemma_no_missing(
    config: Config,
    ideal: Seq<IdealOrder>,
    entries: Seq<OpenOrder>,
    m: int,
)
    requires
        0 <= m <= ideal.len(),
        forall|w: int|
            0 <= w < ideal.len() ==> is_covered(config, entries, #[trigger] ideal[w]),
    ensures
        missing_before(config, ideal, entries, m).len() == 0,
    decreases m,
{
    if m > 0 {
        lemma_no_missing(config, ideal, entries, m - 1);
        assert(is_covered(config, entries, ideal[m - 1]));
    }
}

/// A scan settles: once its cancellations are done and its orders are open, the next scan
/// asks for nothing, as long as the price and the positions do not change.
pub proof fn law_scan_settles(
    config: Config,
    ideal: Seq<IdealOrder>,
    entries: Seq<OpenOrder>,
    placed: Seq<OpenOrder>,
)
    requires
        config.wf(),
        slots_differ(ideal),
        opened_as(placed, missing(config, ideal, entries)),
    ensures
        cancels(config, ideal, survivors(config, ideal, entries) + placed).len() == 0,
        missing(config, ideal, survivors(config, ideal, entries) + placed).len() == 0,
{
    let left = survivors(config, ideal, entries);
    let wanted = missing(config, ideal, entries);
    let after = left + placed;
    lemma_survivors(config, ideal, entries, entries.len() as int, left);
    lemma_missing_are_ideal(config, ideal, entries, ideal.len() as int);
    lemma_missing_differ(config, ideal, entries, ideal.len() as int);
    assert forall|a: int| 0 <= a < after.len() implies #[trigger] survives(
        config,
        ideal,
        after,
        a,
    ) by {
        if a < left.len() {
            assert(after[a] == left[a]);
            let w = choose|w: int|
                0 <= w < entries.len() && #[trigger] entries[w] == left[a] && survives(
                    config,
                    ideal,
                    entries,
                    w,
                );
            if id_mark().is_prefix_of(after[a].id@) {
                assert(is_kept(config, ideal, entries, w));
                assert forall|i: int|
                    0 <= i < a && slot_of((#[trigger] after[i]).id@) == slot_of(
                        after[a].id@,
                    ) implies !is_wanted(config, ideal, after[i]) by {
                    assert(after[i] == left[i]);
                    assert(survive_in_order(
                        config,
                        ideal,
                        entries,
                        entries.len() as int,
                        left[i],
                        left[a],
                    ));
                    let (v, x) = choose|v: int, x: int|
                        0 <= v < x < entries.len() && #[trigger] entries[v] == left[i]
                            && #[trigger] entries[x] == left[a] && survives(
                            config,
                            ideal,
                            entries,
                            v,
                        ) && survives(config, ideal, entries, x);
                    assert(is_kept(config, ideal, entries, x));
                    assert(slot_of(entries[v].id@) == slot_of(entries[x].id@));
                }
            }
        } else {
            let p = a - left.len();
            assert(after[a] == placed[p]);
            let w = choose|w: int|
                0 <= w < ideal.len() && #[trigger] ideal[w] == wanted[p] && !is_covered(
                    config,
                    entries,
                    ideal[w],
                );
            assert(stands_for(config, after[a], ideal[w]));
            assert forall|i: int|
                0 <= i < a && slot_of((#[trigger] after[i]).id@) == slot_of(
                    after[a].id@,
                ) implies !is_wanted(config, ideal, after[i]) by {
                if i < left.len() {
                    assert(after[i] == left[i]);
                    let v = choose|v: int|
                        0 <= v < entries.len() && #[trigger] entries[v] == left[i] && survives(
                            config,
                            ideal,
                            entries,
                            v,
                        );
                    if is_wanted(config, ideal, after[i]) {
                        let x = choose|x: int|
                            0 <= x < ideal.len() && stands_for(
                                config,
                                after[i],
                                #[trigger] ideal[x],
                            );
                        assert(ideal[x].slot() == ideal[w].slot());
                        assert(x == w);
                        assert(stands_for(config, entries[v], ideal[w]));
                        assert(is_covered(config, entries, ideal[w]));
                    }
                } else {
                    let o = i - left.len();
                    assert(after[i] == placed[o]);
                    assert(wanted[o].slot() != wanted[p].slot());
                }
            }
        }
    }
    lemma_no_cancels(config, ideal, after, after.len() as int);
    assert forall|w: int| 0 <= w < ideal.len() implies is_covered(
        config,
        after,
        #[trigger] ideal[w],
    ) by {
        if is_covered(config, entries, ideal[w]) {
            lemma_first_cover(config, ideal, entries, w);
            let v = choose|v: int|
                0 <= v < entries.len() && stands_for(config, #[trigger] entries[v], ideal[w])
                    && is_kept(config, ideal, entries, v);
            assert(survives(config, ideal, entries, v));
            let a = choose|a: int| 0 <= a < left.len() && left[a] == entries[v];
            assert(after[a] == entries[v]);
        } else {
            let p = choose|p: int| 0 <= p < wanted.len() && wanted[p] == ideal[w];
            assert(after[left.len() + p] == placed[p]);
            assert(stands_for(config, placed[p], ideal[w]));
        }
    }
    lemma_no_missing(config, ideal, after, ideal.len() as int);
}

/// Among the open orders that stand for an order of the grid, the first one is kept.
proof fn lemma_first_cover(
    config: Config,
    ideal: Seq<IdealOrder>,
    entries: Seq<OpenOrder>,
    w: int,
)
    requires
        slots_differ(ideal),
        0 <= w < ideal.len(),
        is_covered(config, entries, ideal[w]),
    ensures
        exists|v: int|
            0 <= v < entries.len() && stands_for(config, #[trigger] entries[v], ideal[w])
                && is_kept(config, ideal, entries, v),
{
    let i = choose|i: int|
        0 <= i < entries.len() && stands_for(config, #[trigger] entries[i], ideal[w]);
    lemma_first_cover_before(config, ideal, entries, w, i);
}

proof fn lemma_first_cover_before(
    config: Config,
    ideal: Seq<IdealOrder>,
    entries: Seq<OpenOrder>,
    w: int,
    i: int,
)
    requires
        slots_differ(ideal),
        0 <= w < ideal.len(),
        0 <= i < entries.len(),
        stands_for(config, entries[i], ideal[w]),
    ensures
        exists|v: int|
            0 <= v <= i && stands_for(config, #[trigger] entries[v], ideal[w]) && is_kept(
                config,
                ideal,
                entries,
                v,
            ),
    decreases i,
{
    if !is_kept(config, ideal, entries, i) {
        assert(is_wanted(config, ideal, entries[i]));
        let e = choose|e: int|
            0 <= e < i && slot_of((#[trigger] entries[e]).id@) == slot_of(entries[i].id@)
                && is_wanted(config, ideal, entries[e]);
        let x = choose|x: int|
            0 <= x < ideal.len() && stands_for(config, entries[e], #[trigger] ideal[x]);
        assert(ideal[x].slot() == ideal[w].slot());
        assert(x == w);
        lemma_first_cover_before(config, ideal, entries, w, e);
    }
}

/// Only open orders of the grid are cancelled, and none that is kept.
pub proof fn law_only_grid_orders_are_cancelled(
    config: Config,
    ideal: Seq<IdealOrder>,
    entries: Seq<OpenOrder>,
    c: int,
)
    requires
        0 <= c < cancels(config, ideal, entries).len(),
    ensures
        id_mark().is_prefix_of(cancels(config, ideal, entries)[c]),
        exists|j: int|
            0 <= j < entries.len() && (#[trigger] entries[j]).id@ == cancels(
                config,
                ideal,
                entries,
            )[c] && !is_kept(config, ideal, entries, j),
{
    lemma_cancels(config, ideal, entries, entries.len() as int, c);
}

proof fn lemma_cancels(
    config: Config,
    ideal: Seq<IdealOrder>,
    entries: Seq<OpenOrder>,
    j: int,
    c: int,
)
    requires
        0 <= j <= entries.len(),
        0 <= c < cancels_before(config, ideal, entries, j).len(),
    ensures
        id_mark().is_prefix_of(cancels_before(config, ideal, entries, j)[c]),
        exists|i: int|
            0 <= i < j && (#[trigger] entries[i]).id@ == cancels_before(
                config,
                ideal,
                entries,
                j,
            )[c] && !is_kept(config, ideal, entries, i),
    decreases j,
{
    let rest = cancels_before(config, ideal, entries, j - 1);
    if c < rest.len() {
        lemma_cancels(config, ideal, entries, j - 1, c);
    } else {
        assert(entries[j - 1].id@ == cancels_before(config, ideal, entries, j)[c]);
    }
}

/// The price and the size of an order to be placed, as the exchange reads them, are those
/// that the grid should have: `price_steps` ticks and `size_steps` lots.
pub proof fn law_placed_order_is_read_back(
    config: Config,
    geo: StrategyGeometry,
    command: OrderCommand,
    order: IdealOrder,
    price_steps: int,
    size_steps: int,
)
    requires
        config.wf(),
        geo.tick_decimals == needed_decimals(config.tick_sz as int),
        geo.lot_decimals == needed_decimals(config.lot_sz as int),
        order.price == price_steps * config.tick_sz,
        order.size == size_steps * config.lot_sz,
        in_range(order.price as int),
        in_range(order.size as int),
        is_order_for(config, geo, command, order),
    ensures
        amount_of(command.price@) == Some(order.price as int),
        amount_of(command.size@) == Some(order.size as int),
{
    lemma_round_to_multiple(price_steps, config.tick_sz as int);
    lemma_round_to_multiple(size_steps, config.lot_sz as int);
    law_multiple_of_step_is_read_back(price_steps, config.tick_sz as int);
    law_multiple_of_step_is_read_back(size_steps, config.lot_sz as int);
}

/// An order that was placed, and that the exchange reports as open with nothing filled,
/// is known with the size and the price that the grid should have.
pub proof fn law_reported_order_is_known(
    config: Config,
    geo: StrategyGeometry,
    command: OrderCommand,
    order: IdealOrder,
    price_steps: int,
    size_steps: int,
    n: Noticed,
    report: JsonView,
)
    requires
        config.wf(),
        geo.tick_decimals == needed_decimals(config.tick_sz as int),
        geo.lot_decimals == needed_decimals(config.lot_sz as int),
        order.price == price_steps * config.tick_sz,
        order.size == size_steps * config.lot_sz,
        in_range(order.price as int),
        in_range(order.size as int),
        is_order_for(config, geo, command, order),
        id_mark().is_prefix_of(command.cl_ord_id@),
        report.text_at("clOrdId"@) == Some(command.cl_ord_id@),
        report.text_at("state"@) == Some("live"@),
        report.text_at("px"@) == Some(command.price@),
        report.text_at("sz"@) == Some(command.size@),
        report.amount_at("accFillSz"@) == 0,
        !n.st.orders.dom().contains(command.cl_ord_id@),
    ensures
        note_order(n, report).trigger,
        note_order(n, report).st.orders == n.st.orders.insert(
            command.cl_ord_id@,
            (order.size as int, order.price as int),
        ),
{
    law_placed_order_is_read_back(config, geo, command, order, price_steps, size_steps);
}

/// Orders, by client order id, without some of them.
pub open spec fn without_ids(orders: Map<Seq<char>, (int, int)>, ids: Seq<Seq<char>>) -> Map<
    Seq<char>,
    (int, int),
>
    decreases ids.len(),
{
    if ids.len() == 0 {
        orders
    } else {
        without_ids(orders, ids.drop_last()).remove(ids.last())
    }
}

/// Orders, by client order id, with those that commands place, as the exchange reads them.
pub open spec fn with_placed(
    orders: Map<Seq<char>, (int, int)>,
    commands: Seq<OrderCommand>,
) -> Map<Seq<char>, (int, int)>
    decreases commands.len(),
{
    if commands.len() == 0 {
        orders
    } else {
        let c = commands.last();
        with_placed(orders, commands.drop_last()).insert(
            c.cl_ord_id@,
            (amount_or_zero(c.size@), amount_or_zero(c.price@)),
        )
    }
}

proof fn lemma_without_ids(orders: Map<Seq<char>, (int, int)>, ids: Seq<Seq<char>>, id: Seq<char>)
    ensures
        without_ids(orders, ids).dom().contains(id) <==> orders.dom().contains(id)
            && !ids.contains(id),
        without_ids(orders, ids).dom().contains(id) ==> without_ids(orders, ids)[id]
            == orders[id],
    decreases ids.len(),
{
    if ids.len() > 0 {
        let front = ids.drop_last();
        lemma_without_ids(orders, front, id);
        if ids.contains(id) && id != ids.last() {
            let i = ids.index_of(id);
            assert(front[i] == id);
        }
        if front.contains(id) {
            let i = front.index_of(id);
            assert(ids[i] == id);
        }
        assert(ids[ids.len() - 1] == ids.last());
    }
}

/// A command places an order under this id.
pub open spec fn is_placed(commands: Seq<OrderCommand>, id: Seq<char>) -> bool {
    exists|i: int| 0 <= i < commands.len() && (#[trigger] commands[i]).cl_ord_id@ == id
}

proof fn lemma_with_placed(
    orders: Map<Seq<char>, (int, int)>,
    commands: Seq<OrderCommand>,
    id: Seq<char>,
)
    requires
        forall|i: int, j: int|
            0 <= i < j < commands.len() ==> (#[trigger] commands[i]).cl_ord_id@ != (
            #[trigger] commands[j]).cl_ord_id@,
    ensures
        with_placed(orders, commands).dom().contains(id) <==> orders.dom().contains(id)
            || is_placed(commands, id),
        !is_placed(commands, id) && orders.dom().contains(id) ==> with_placed(orders, commands)[id]
            == orders[id],
        forall|i: int|
            0 <= i < commands.len() && (#[trigger] commands[i]).cl_ord_id@ == id ==> with_placed(
                orders,
                commands,
            )[id] == (amount_or_zero(commands[i].size@), amount_or_zero(commands[i].price@)),
    decreases commands.len(),
{
    if commands.len() > 0 {
        let front = commands.drop_last();
        lemma_with_placed(orders, front, id);
        if is_placed(front, id) {
            let i = choose|i: int|
                0 <= i < front.len() && (#[trigger] front[i]).cl_ord_id@ == id;
            assert(commands[i].cl_ord_id@ == id);
        }
        if is_placed(commands, id) && id != commands.last().cl_ord_id@ {
            let i = choose|i: int|
                0 <= i < commands.len() && (#[trigger] commands[i]).cl_ord_id@ == id;
            assert(front[i].cl_ord_id@ == id);
        }
        assert(commands[commands.len() - 1] == commands.last());
        assert forall|i: int|
            0 <= i < commands.len() && (#[trigger] commands[i]).cl_ord_id@ == id implies with_placed(
            orders,
            commands,
        )[id] == (amount_or_zero(commands[i].size@), amount_or_zero(commands[i].price@)) by {
            if i < commands.len() - 1 {
                assert(front[i] == commands[i]);
                assert(commands[i].cl_ord_id@ != commands[commands.len() - 1].cl_ord_id@);
            }
        }
    }
}

/// Two open orders have the same id, size and price.
spec fn same_order(a: OpenOrder, b: OpenOrder) -> bool {
    a.id@ == b.id@ && a.size == b.size && a.price == b.price
}

/// An open order is one of these.
spec fn is_among(x: OpenOrder, entries: Seq<OpenOrder>) -> bool {
    exists|j: int| 0 <= j < entries.len() && same_order(x, #[trigger] entries[j])
}

/// Each open order of `a` is one of `b`.
spec fn all_among(a: Seq<OpenOrder>, b: Seq<OpenOrder>) -> bool {
    forall|i: int| 0 <= i < a.len() ==> #[trigger] is_among(a[i], b)
}

proof fn lemma_cancels_grow(
    config: Config,
    ideal: Seq<IdealOrder>,
    entries: Seq<OpenOrder>,
    i: int,
    j: int,
)
    requires
        0 <= i < j <= entries.len(),
        !survives(config, ideal, entries, i),
    ensures
        cancels_before(config, ideal, entries, j).contains(entries[i].id@),
    decreases j,
{
    let all = cancels_before(config, ideal, entries, j);
    let rest = cancels_before(config, ideal, entries, j - 1);
    if i == j - 1 {
        assert(all[all.len() - 1] == entries[i].id@);
    } else {
        lemma_cancels_grow(config, ideal, entries, i, j - 1);
        let x = rest.index_of(entries[i].id@);
        assert(all[x] == rest[x]);
    }
}

/// Whether a scan asks for nothing does not depend on the order of the open orders.
proof fn lemma_any_order(
    config: Config,
    ideal: Seq<IdealOrder>,
    base: Seq<OpenOrder>,
    after: Seq<OpenOrder>,
)
    requires
        slots_differ(ideal),
        ids_differ(after),
        all_among(after, base),
        all_among(base, after),
        cancels(config, ideal, base).len() == 0,
        missing(config, ideal, base).len() == 0,
    ensures
        cancels(config, ideal, after).len() == 0,
        missing(config, ideal, after).len() == 0,
{
    lemma_missing_differ(config, ideal, base, ideal.len() as int);
    assert forall|b: int| 0 <= b < base.len() implies #[trigger] survives(
        config,
        ideal,
        base,
        b,
    ) by {
        if !survives(config, ideal, base, b) {
            lemma_cancels_grow(config, ideal, base, b, base.len() as int);
        }
    }
    assert forall|j: int| 0 <= j < after.len() implies #[trigger] survives(
        config,
        ideal,
        after,
        j,
    ) by {
        assert(is_among(after[j], base));
        let y = choose|y: int|
            0 <= y < base.len() && same_order(after[j], #[trigger] base[y]);
        assert(survives(config, ideal, base, y));
        if id_mark().is_prefix_of(after[j].id@) {
            let m = choose|m: int|
                0 <= m < ideal.len() && stands_for(config, base[y], #[trigger] ideal[m]);
            assert(stands_for(config, after[j], ideal[m]));
            assert forall|i: int|
                0 <= i < j && slot_of((#[trigger] after[i]).id@) == slot_of(
                    after[j].id@,
                ) implies !is_wanted(config, ideal, after[i]) by {
                assert(is_among(after[i], base));
                let x = choose|x: int|
                    0 <= x < base.len() && same_order(after[i], #[trigger] base[x]);
                assert(after[i].id@ != after[j].id@);
                assert(survives(config, ideal, base, x));
                assert(id_mark().is_prefix_of(base[x].id@));
                assert(is_kept(config, ideal, base, x) && is_kept(config, ideal, base, y));
                assert(slot_of(base[x].id@) == slot_of(base[y].id@));
            }
        }
    }
    lemma_no_cancels(config, ideal, after, after.len() as int);
    assert forall|w: int| 0 <= w < ideal.len() implies is_covered(
        config,
        after,
        #[trigger] ideal[w],
    ) by {
        if !is_covered(config, base, ideal[w]) {
            assert(missing(config, ideal, base).contains(ideal[w]));
        }
        let y = choose|y: int|
            0 <= y < base.len() && stands_for(config, #[trigger] base[y], ideal[w]);
        assert(is_among(base[y], after));
        let x = choose|x: int|
            0 <= x < after.len() && same_order(base[y], #[trigger] after[x]);
        assert(stands_for(config, after[x], ideal[w]));
    }
    lemma_no_missing(config, ideal, after, ideal.len() as int);
}

/// What a map of open orders says of one of them.
proof fn lemma_by_id(entries: Seq<OpenOrder>, i: int)
    requires
        ids_differ(entries),
        0 <= i < entries.len(),
    ensures
        by_id(entries).dom().contains(entries[i].id@),
        by_id(entries)[entries[i].id@] == (entries[i].size as int, entries[i].price as int),
{
    assert(has_id(entries, entries[i].id@));
    let p = place_of(entries, entries[i].id@);
    if p < i {
        assert(entries[p].id@ != entries[i].id@);
    }
    if i < p {
        assert(entries[i].id@ != entries[p].id@);
    }
}

/// The open orders that a scan leads to: its orders opened, behind those that survive.
spec fn opened(commands: Seq<OrderCommand>, orders: Seq<IdealOrder>) -> Seq<OpenOrder> {
    Seq::new(
        commands.len(),
        |i: int|
            OpenOrder {
                id: commands[i].cl_ord_id,
                size: orders[i].size,
                price: orders[i].price,
            },
    )
}

/// The orders that the commands place, as the exchange reads them, are the grid's.
proof fn lemma_placed_amounts(
    config: Config,
    geo: StrategyGeometry,
    st: WsStateView,
    entries: Seq<OpenOrder>,
    commands: Seq<OrderCommand>,
    count: usize,
    i: int,
)
    requires
        config.wf(),
        geo.wf(),
        geo.tick_decimals == needed_decimals(config.tick_sz as int),
        geo.lot_decimals == needed_decimals(config.lot_sz as int),
        0 <= st.pos_long <= LIMIT,
        0 <= st.pos_short <= LIMIT,
        orders_in_range(ideal_orders(config, geo, st)),
        places(config, geo, commands, missing(config, ideal_orders(config, geo, st), entries), count),
        0 <= i < commands.len(),
    ensures
        ({
            let order = missing(config, ideal_orders(config, geo, st), entries)[i];
            &&& amount_or_zero(commands[i].size@) == order.size
            &&& amount_or_zero(commands[i].price@) == order.price
        }),
{
    let ideal = ideal_orders(config, geo, st);
    let order = missing(config, ideal, entries)[i];
    lemma_missing_are_ideal(config, ideal, entries, ideal.len() as int);
    let w = choose|w: int|
        0 <= w < ideal.len() && #[trigger] ideal[w] == order && !is_covered(
            config,
            entries,
            ideal[w],
        );
    lemma_ideal_is_whole(config, geo, st, w);
    let x = choose|x: int|
        order.price == #[trigger] round_div(x, config.tick_sz as int) * config.tick_sz;
    assert(in_range(ideal[w].size as int));
    assert(is_order_for(config, geo, commands[i], order));
    law_placed_order_is_read_back(
        config,
        geo,
        commands[i],
        order,
        round_div(x, config.tick_sz as int),
        round_div(order.size as int, config.lot_sz as int),
    );
}

/// Sizes and prices are within the limits of amounts.
pub open spec fn orders_in_range(orders: Seq<IdealOrder>) -> bool {
    forall|m: int|
        0 <= m < orders.len() ==> in_range((#[trigger] orders[m]).size as int) && in_range(
            orders[m].price as int,
        )
}

/// The grid is a fixed point: once the cancellations of a scan are done and the orders of
/// its commands are open, as the exchange reads them, the next scan asks for nothing, as
/// long as the price and the positions do not change. It does not matter in which order
/// the open orders are held.
pub proof fn law_next_scan_asks_for_nothing(
    config: Config,
    geo: StrategyGeometry,
    before: WsState,
    after: WsState,
    commands: Seq<OrderCommand>,
    count: usize,
)
    requires
        config.wf(),
        geo.wf(),
        geo.tick_decimals == needed_decimals(config.tick_sz as int),
        geo.lot_decimals == needed_decimals(config.lot_sz as int),
        before.wf(),
        after.wf(),
        after.price == before.price,
        after.pos_long == before.pos_long,
        after.pos_short == before.pos_short,
        orders_in_range(ideal_orders(config, geo, before@)),
        places(
            config,
            geo,
            commands,
            missing(config, ideal_orders(config, geo, before@), before.open_orders.walk()),
            count,
        ),
        after@.orders == with_placed(
            without_ids(
                before@.orders,
                cancels(config, ideal_orders(config, geo, before@), before.open_orders.walk()),
            ),
            commands,
        ),
    ensures
        cancels(config, ideal_orders(config, geo, after@), after.open_orders.walk()).len() == 0,
        missing(config, ideal_orders(config, geo, after@), after.open_orders.walk()).len() == 0,
{
    let ideal = ideal_orders(config, geo, before@);
    let entries = before.open_orders.walk();
    let wanted = missing(config, ideal, entries);
    let gone = cancels(config, ideal, entries);
    let left = survivors(config, ideal, entries);
    let placed = opened(commands, wanted);
    let base = left + placed;
    let now = after.open_orders.walk();
    let kept = without_ids(before@.orders, gone);
    before.open_orders.lemma_walk();
    after.open_orders.lemma_walk();
    lemma_ideal_depends(config, geo, before@, after@, 4 * geo.n);
    law_slots_differ(config, geo, before@);
    law_scan_settles(config, ideal, entries, placed);
    lemma_survivors(config, ideal, entries, entries.len() as int, left);
    lemma_missing_differ(config, ideal, entries, ideal.len() as int);
    assert forall|i: int, j: int| 0 <= i < j < commands.len() implies (
    #[trigger] commands[i]).cl_ord_id@ != (#[trigger] commands[j]).cl_ord_id@ by {
        assert(wanted[i].slot() != wanted[j].slot());
    }
    assert forall|i: int| 0 <= i < now.len() implies #[trigger] is_among(now[i], base) by {
        let id = now[i].id@;
        lemma_by_id(now, i);
        lemma_with_placed(kept, commands, id);
        lemma_without_ids(before@.orders, gone, id);
        if is_placed(commands, id) {
            let c = choose|c: int|
                0 <= c < commands.len() && (#[trigger] commands[c]).cl_ord_id@ == id;
            lemma_placed_amounts(config, geo, before@, entries, commands, count, c);
            assert(same_order(now[i], base[left.len() + c]));
        } else {
            let e = place_of(entries, id);
            assert(has_id(entries, id));
            lemma_by_id(entries, e);
            if !survives(config, ideal, entries, e) {
                lemma_cancels_grow(config, ideal, entries, e, entries.len() as int);
            }
            let a = left.index_of(entries[e]);
            assert(left[a] == entries[e]);
            assert(same_order(now[i], base[a]));
        }
    }
    assert forall|j: int| 0 <= j < base.len() implies #[trigger] is_among(base[j], now) by {
        let id = base[j].id@;
        lemma_with_placed(kept, commands, id);
        lemma_without_ids(before@.orders, gone, id);
        if j < left.len() {
            let e = choose|e: int|
                0 <= e < entries.len() && #[trigger] entries[e] == left[j] && survives(
                    config,
                    ideal,
                    entries,
                    e,
                );
            lemma_by_id(entries, e);
            if gone.contains(id) {
                let c = gone.index_of(id);
                law_only_grid_orders_are_cancelled(config, ideal, entries, c);
                let g = choose|g: int|
                    0 <= g < entries.len() && (#[trigger] entries[g]).id@ == gone[c] && !is_kept(
                        config,
                        ideal,
                        entries,
                        g,
                    );
                if g < e {
                    assert(entries[g].id@ != entries[e].id@);
                }
                if e < g {
                    assert(entries[e].id@ != entries[g].id@);
                }
                assert(false);
            }
            if is_placed(commands, id) {
                let c = choose|c: int|
                    0 <= c < commands.len() && (#[trigger] commands[c]).cl_ord_id@ == id;
                lemma_survivor_is_not_placed(config, ideal, entries, e, c);
                assert(false);
            }
        } else {
            let c = j - left.len();
            assert(commands[c].cl_ord_id@ == id);
            lemma_placed_amounts(config, geo, before@, entries, commands, count, c);
        }
        let i = place_of(now, id);
        assert(has_id(now, id));
        lemma_by_id(now, i);
        assert(same_order(base[j], now[i]));
    }
    lemma_any_order(config, ideal, base, now);
}

/// No order is placed in the slot of one that survives as the grid's.
proof fn lemma_survivor_is_not_placed(
    config: Config,
    ideal: Seq<IdealOrder>,
    entries: Seq<OpenOrder>,
    e: int,
    c: int,
)
    requires
        slots_differ(ideal),
        0 <= e < entries.len(),
        survives(config, ideal, entries, e),
        0 <= c < missing(config, ideal, entries).len(),
    ensures
        slot_of(entries[e].id@) != Some(missing(config, ideal, entries)[c].slot()),
{
    let wanted = missing(config, ideal, entries);
    if slot_of(entries[e].id@) == Some(wanted[c].slot()) {
        let m = choose|m: int|
            0 <= m < ideal.len() && stands_for(config, entries[e], #[trigger] ideal[m]);
        lemma_missing_are_ideal(config, ideal, entries, ideal.len() as int);
        let w = choose|w: int|
            0 <= w < ideal.len() && #[trigger] ideal[w] == wanted[c] && !is_covered(
                config,
                entries,
                ideal[w],
            );
        assert(ideal[m].slot() == ideal[w].slot());
        assert(m == w);
        assert(is_covered(config, entries, ideal[w]));
    }
}

/// An open order of the grid that a scan does not cancel fits an order of the grid: it has
/// the slot, and differs by less than a tenth of a lot in what is left of it and by less
/// than a tenth of a tick in its price.
pub proof fn law_what_stays_open_fits(
    config: Config,
    ideal: Seq<IdealOrder>,
    entries: Seq<OpenOrder>,
    j: int,
)
    requires
        0 <= j < entries.len(),
        entries[j].id@.len() >= 3,
        entries[j].id@[0] == 'N' && entries[j].id@[1] == 'G' && entries[j].id@[2] == 'B',
        !cancels(config, ideal, entries).contains(entries[j].id@),
    ensures
        exists|m: int| #![trigger ideal[m]]
            {
                &&& 0 <= m < ideal.len()
                &&& slot_of(entries[j].id@) == Some((ideal[m].pos_side, ideal[m].side, ideal[m].k))
                &&& 10 * (entries[j].size - ideal[m].size) < config.lot_sz
                &&& 10 * (ideal[m].size - entries[j].size) < config.lot_sz
                &&& 10 * (entries[j].price - ideal[m].price) < config.tick_sz
                &&& 10 * (ideal[m].price - entries[j].price) < config.tick_sz
            },
{
    if !survives(config, ideal, entries, j) {
        lemma_cancels_grow(config, ideal, entries, j, entries.len() as int);
    }
    assert(id_mark() =~= entries[j].id@.subrange(0, 3));
    assert(id_mark().is_prefix_of(entries[j].id@));
    assert(is_kept(config, ideal, entries, j));
    let m = choose|m: int|
        0 <= m < ideal.len() && stands_for(config, entries[j], #[trigger] ideal[m]);
    assert(ideal[m].slot() == (ideal[m].pos_side, ideal[m].side, ideal[m].k));
}

/// An open order that fits an order of the grid is not cancelled, unless one before it
/// fits that order too.
pub proof fn law_what_fits_stays_open(
    config: Config,
    ideal: Seq<IdealOrder>,
    entries: Seq<OpenOrder>,
    j: int,
    m: int,
)
    requires
        slots_differ(ideal),
        ids_differ(entries),
        0 <= j < entries.len(),
        0 <= m < ideal.len(),
        slot_of(entries[j].id@) == Some((ideal[m].pos_side, ideal[m].side, ideal[m].k)),
        -config.lot_sz < 10 * (entries[j].size - ideal[m].size) < config.lot_sz,
        -config.tick_sz < 10 * (entries[j].price - ideal[m].price) < config.tick_sz,
        forall|i: int|
            0 <= i < j && slot_of((#[trigger] entries[i]).id@) == slot_of(entries[j].id@) ==> {
                ||| 10 * (entries[i].size - ideal[m].size) >= config.lot_sz
                ||| 10 * (ideal[m].size - entries[i].size) >= config.lot_sz
                ||| 10 * (entries[i].price - ideal[m].price) >= config.tick_sz
                ||| 10 * (ideal[m].price - entries[i].price) >= config.tick_sz
            },
    ensures
        !cancels(config, ideal, entries).contains(entries[j].id@),
{
    assert(stands_for(config, entries[j], ideal[m]));
    assert forall|i: int|
        0 <= i < j && slot_of((#[trigger] entries[i]).id@) == slot_of(
            entries[j].id@,
        ) implies !is_wanted(config, ideal, entries[i]) by {
        if is_wanted(config, ideal, entries[i]) {
            let w = choose|w: int|
                0 <= w < ideal.len() && stands_for(config, entries[i], #[trigger] ideal[w]);
            assert(ideal[w].slot() == ideal[m].slot());
            assert(w == m);
        }
    }
    assert(is_kept(config, ideal, entries, j));
    if cancels(config, ideal, entries).contains(entries[j].id@) {
        let c = cancels(config, ideal, entries).index_of(entries[j].id@);
        law_only_grid_orders_are_cancelled(config, ideal, entries, c);
        let g = choose|g: int|
            0 <= g < entries.len() && (#[trigger] entries[g]).id@ == cancels(
                config,
                ideal,
                entries,
            )[c] && !is_kept(config, ideal, entries, g);
        if g < j {
            assert(entries[g].id@ != entries[j].id@);
        }
        if j < g {
            assert(entries[j].id@ != entries[g].id@);
        }
    }
}

/// Of two open orders of the grid in one slot at most one stays open.
pub proof fn law_one_stays_open_in_a_slot(
    config: Config,
    ideal: Seq<IdealOrder>,
    entries: Seq<OpenOrder>,
    i: int,
    j: int,
)
    requires
        0 <= i < j < entries.len(),
        slot_of(entries[i].id@) is Some,
        slot_of(entries[i].id@) == slot_of(entries[j].id@),
        !cancels(config, ideal, entries).contains(entries[i].id@),
    ensures
        cancels(config, ideal, entries).contains(entries[j].id@),
{
    if !survives(config, ideal, entries, i) {
        lemma_cancels_grow(config, ideal, entries, i, entries.len() as int);
    }
    assert(is_kept(config, ideal, entries, i));
    assert(!is_kept(config, ideal, entries, j));
    lemma_cancels_grow(config, ideal, entries, j, entries.len() as int);
}

/// An order of the grid is placed exactly where no open order has its slot and is within
/// a tenth of a lot and of a tick of it.
pub proof fn law_placed_where_nothing_fits(
    config: Config,
    ideal: Seq<IdealOrder>,
    entries: Seq<OpenOrder>,
    m: int,
)
    requires
        slots_differ(ideal),
        0 <= m < ideal.len(),
    ensures
        missing(config, ideal, entries).contains(ideal[m]) <==> (forall|i: int|
            #![trigger entries[i]]
            0 <= i < entries.len() ==> {
                ||| slot_of(entries[i].id@) != Some((ideal[m].pos_side, ideal[m].side, ideal[m].k))
                ||| 10 * (entries[i].size - ideal[m].size) >= config.lot_sz
                ||| 10 * (ideal[m].size - entries[i].size) >= config.lot_sz
                ||| 10 * (entries[i].price - ideal[m].price) >= config.tick_sz
                ||| 10 * (ideal[m].price - entries[i].price) >= config.tick_sz
            }),
        slots_differ(missing(config, ideal, entries)),
        forall|o: IdealOrder| #[trigger]
            missing(config, ideal, entries).contains(o) ==> ideal.contains(o),
{
    let wanted = missing(config, ideal, entries);
    let order = ideal[m];
    lemma_missing_are_ideal(config, ideal, entries, ideal.len() as int);
    lemma_missing_differ(config, ideal, entries, ideal.len() as int);
    assert forall|i: int| 0 <= i < entries.len() implies (stands_for(
        config,
        #[trigger] entries[i],
        order,
    ) <==> !({
        ||| slot_of(entries[i].id@) != Some((order.pos_side, order.side, order.k))
        ||| 10 * (entries[i].size - order.size) >= config.lot_sz
        ||| 10 * (order.size - entries[i].size) >= config.lot_sz
        ||| 10 * (entries[i].price - order.price) >= config.tick_sz
        ||| 10 * (order.price - entries[i].price) >= config.tick_sz
    })) by {}
    if wanted.contains(order) {
        let p = wanted.index_of(order);
        assert(wanted[p] == order);
        let w = choose|w: int|
            0 <= w < ideal.len() && #[trigger] ideal[w] == wanted[p] && !is_covered(
                config,
                entries,
                ideal[w],
            );
        assert(!is_covered(config, entries, order));
    } else {
        assert(is_covered(config, entries, order));
        let i = choose|i: int| 0 <= i < entries.len() && stands_for(
            config,
            #[trigger] entries[i],
            order,
        );
    }
    assert forall|o: IdealOrder| #[trigger] wanted.contains(o) implies ideal.contains(o) by {
        let p = wanted.index_of(o);
        assert(wanted[p] == o);
        let w = choose|w: int|
            0 <= w < ideal.len() && #[trigger] ideal[w] == wanted[p] && !is_covered(
                config,
                entries,
                ideal[w],
            );
        assert(ideal[w] == o);
    }
}

/// Once a scan is carried out, each order of the grid is open: some open order has its
/// slot and is within a tenth of a lot and of a tick of it.
pub proof fn law_grid_is_open_after_a_scan(
    config: Config,
    geo: StrategyGeometry,
    before: WsState,
    after: WsState,
    commands: Seq<OrderCommand>,
    count: usize,
    m: int,
)
    requires
        config.wf(),
        geo.wf(),
        geo.tick_decimals == needed_decimals(config.tick_sz as int),
        geo.lot_decimals == needed_decimals(config.lot_sz as int),
        before.wf(),
        after.wf(),
        after.price == before.price,
        after.pos_long == before.pos_long,
        after.pos_short == before.pos_short,
        orders_in_range(ideal_orders(config, geo, before@)),
        places(
            config,
            geo,
            commands,
            missing(config, ideal_orders(config, geo, before@), before.open_orders.walk()),
            count,
        ),
        after@.orders == with_placed(
            without_ids(
                before@.orders,
                cancels(config, ideal_orders(config, geo, before@), before.open_orders.walk()),
            ),
            commands,
        ),
        0 <= m < ideal_orders(config, geo, before@).len(),
    ensures
        exists|id: Seq<char>| #![trigger after@.orders.dom().contains(id)]
            {
                let order = ideal_orders(config, geo, before@)[m];
                let open = after@.orders[id];
                &&& after@.orders.dom().contains(id)
                &&& slot_of(id) == Some((order.pos_side, order.side, order.k))
                &&& -config.lot_sz < 10 * (open.0 - order.size) < config.lot_sz
                &&& -config.tick_sz < 10 * (open.1 - order.price) < config.tick_sz
            },
{
    law_next_scan_asks_for_nothing(config, geo, before, after, commands, count);
    lemma_ideal_depends(config, geo, before@, after@, 4 * geo.n);
    law_slots_differ(config, geo, before@);
    after.open_orders.lemma_walk();
    let ideal = ideal_orders(config, geo, before@);
    let now = after.open_orders.walk();
    lemma_missing_differ(config, ideal, now, ideal.len() as int);
    assert(!missing(config, ideal, now).contains(ideal[m]));
    assert(is_covered(config, now, ideal[m]));
    let i = choose|i: int| 0 <= i < now.len() && stands_for(config, #[trigger] now[i], ideal[m]);
    lemma_by_id(now, i);
    assert(after@.orders.dom().contains(now[i].id@));
}

/// The commands of a scan: the cancellations first, id by id, then the orders, one by one,
/// each on its sides and under an id that names its slot; no command is empty.
pub proof fn law_commands_say_what_is_asked(
    config: Config,
    geo: StrategyGeometry,
    commands: Seq<WsCommand>,
    cancel: Seq<Seq<char>>,
    place: Seq<IdealOrder>,
    count: usize,
)
    requires
        asks_for(config, geo, commands, cancel, place, count),
    ensures
        cancel.len() == 0 && place.len() == 0 <==> commands.len() == 0,
        cancel.len() > 0 && place.len() > 0 <==> commands.len() == 2,
        commands.len() <= 2,
        cancel.len() > 0 ==> (commands[0] matches WsCommand::Cancel(ids) && ids@.len()
            == cancel.len() && forall|i: int|
            0 <= i < cancel.len() ==> (#[trigger] ids@[i])@ == cancel[i]),
        place.len() > 0 ==> (commands.last() matches WsCommand::Place(orders) && orders@.len()
            == place.len() && forall|i: int|
            0 <= i < place.len() ==> {
                &&& (#[trigger] orders@[i]).pos_side == place[i].pos_side
                &&& orders@[i].side == place[i].side
                &&& slot_of(orders@[i].cl_ord_id@) == Some(
                    (place[i].pos_side, place[i].side, place[i].k),
                )
            }),
{
    if cancel.len() > 0 {
        if let WsCommand::Cancel(ids) = commands[0] {
            assert forall|i: int| 0 <= i < cancel.len() implies (#[trigger] ids@[i])@
                == cancel[i] by {
                assert(texts(ids@)[i] == cancel[i]);
            }
        }
    }
    if place.len() > 0 {
        assert(commands.last() == commands[commands.len() - 1]);
    }
}

/// The ids of a scan are counted on one by one; behind the last count comes zero.
pub proof fn law_ids_are_counted(count: usize, i: int)
    requires
        i >= 0,
    ensures
        count_after(count, 0) == count,
        count_after(count, i) == usize::MAX ==> count_after(count, i + 1) == 0,
        count_after(count, i) < usize::MAX ==> count_after(count, i + 1) == count_after(count, i)
            + 1,
{
}

}
