use neutral_grid::amount::{parse_amount, SCALE};
use neutral_grid::geometry::{price_at, Config, PriceCurve, StrategyGeometry};
use neutral_grid::grid::{list_ideal_orders, IdealOrder};
use neutral_grid::models::{OrderCounter, PosSide, Side, WsCommand};
use neutral_grid::scan::{plan, reconciliation_scan};
use neutral_grid::state::WsState;

fn config() -> Config {
    Config {
        p_be_up: 110 * SCALE,
        p_be_down: 90 * SCALE,
        fee_rate: 0,
        mmr: SCALE / 100,
        q_s: 4 * SCALE,
        grids: 2,
        tick_sz: SCALE,
        lot_sz: SCALE,
        ct_val: SCALE / 2,
        delta: SCALE / 10,
    }
}

fn curve() -> PriceCurve {
    let levels: Vec<i128> = [90, 95, 100, 105, 110].iter().map(|p| p * SCALE).collect();
    PriceCurve { levels, avg_entry_short: 107 * SCALE + SCALE / 2 }
}

fn geometry() -> StrategyGeometry {
    config().calculate(curve()).unwrap()
}

fn state(price: i128, pos_long: i128, pos_short: i128) -> WsState {
    let mut st = WsState::default();
    st.price = price * SCALE;
    st.pos_long = pos_long * SCALE;
    st.pos_short = pos_short * SCALE;
    st
}

fn order(pos_side: PosSide, side: Side, k: i32, size: i128, price: i128) -> IdealOrder {
    IdealOrder { pos_side, side, k, size: size * SCALE, price: price * SCALE }
}

fn ideal(st: &WsState) -> Vec<IdealOrder> {
    list_ideal_orders(&config(), &geometry(), st)
}

/// Carries the commands of a scan out: cancelled orders go, placed ones come.
fn carry_out(st: &mut WsState, commands: Vec<WsCommand>) {
    for command in commands {
        match command {
            WsCommand::Cancel(ids) => {
                for id in ids {
                    assert!(st.open_orders.remove(&id));
                }
            }
            WsCommand::Place(orders) => {
                for o in orders {
                    let report = format!(
                        r#"{{"arg":{{"channel":"orders"}},"data":[{{"clOrdId":"{}","state":"live","sz":"{}","accFillSz":"0","px":"{}"}}]}}"#,
                        o.cl_ord_id, o.size, o.price
                    );
                    assert!(st.apply_text(&report));
                }
            }
        }
    }
}

#[test]
fn the_grid_is_shaped() {
    let geo = geometry();
    assert_eq!(geo.n, 2);
    assert_eq!(geo.q_grid, 2 * SCALE);
    assert_eq!(geo.actual_q_s, 4 * SCALE);
    assert_eq!(geo.margin_total, 72 * SCALE / 10);
    assert_eq!((geo.tick_decimals, geo.lot_decimals), (0, 0));
}

#[test]
fn no_loss_leaves_the_maintenance_margin() {
    let above = PriceCurve { avg_entry_short: 111 * SCALE, ..curve() };
    let geo = config().calculate(above).unwrap();
    assert_eq!(geo.margin_total, 22 * SCALE / 10);
}

#[test]
fn decimals_follow_the_steps() {
    let fine = Config { tick_sz: SCALE / 100, lot_sz: SCALE / 1000, ..config() };
    let geo = fine.calculate(curve()).unwrap();
    assert_eq!((geo.tick_decimals, geo.lot_decimals), (2, 3));
}

#[test]
fn an_order_below_a_lot_is_refused() {
    let small = Config { q_s: 9 * SCALE / 10, ..config() };
    let e = small.calculate(curve()).err().unwrap();
    assert_eq!((e.q_grid, e.lot_sz), (0, SCALE));
    assert_eq!(e.message(), "0 < 1");
    let negative = Config { q_s: -4 * SCALE, ..config() };
    assert_eq!(negative.calculate(curve()).err().unwrap().message(), "-2 < 1");
    let just = Config { q_s: SCALE, ..config() };
    assert_eq!(just.calculate(curve()).unwrap().q_grid, SCALE);
}

#[test]
fn prices_are_rounded_to_the_tick() {
    let geo = geometry();
    assert_eq!(price_at(&geo, SCALE, -2), 90 * SCALE);
    assert_eq!(price_at(&geo, SCALE, 1), 105 * SCALE);
    assert_eq!(price_at(&geo, 10 * SCALE, 1), 110 * SCALE);
    assert_eq!(price_at(&geo, 30 * SCALE, 0), 90 * SCALE);
}

#[test]
fn prices_rise_with_the_level() {
    let geo = geometry();
    for step in [SCALE / 100, SCALE, 7 * SCALE, 30 * SCALE, 400 * SCALE] {
        for k in -2..2 {
            assert!(price_at(&geo, step, k) <= price_at(&geo, step, k + 1));
        }
    }
}

#[test]
fn without_positions_the_grid_opens_them() {
    assert_eq!(
        ideal(&state(101, 0, 0)),
        vec![
            order(PosSide::Long, Side::Buy, -1, 2, 95),
            order(PosSide::Long, Side::Buy, -2, 2, 90),
            order(PosSide::Short, Side::Sell, 1, 2, 105),
            order(PosSide::Short, Side::Sell, 2, 2, 110),
        ]
    );
}

#[test]
fn with_positions_the_grid_closes_them() {
    assert_eq!(
        ideal(&state(94, 3, 0)),
        vec![
            order(PosSide::Long, Side::Sell, 0, 2, 100),
            order(PosSide::Long, Side::Sell, -1, 1, 95),
            order(PosSide::Long, Side::Buy, -2, 1, 90),
            order(PosSide::Short, Side::Sell, 1, 2, 105),
            order(PosSide::Short, Side::Sell, 2, 2, 110),
        ]
    );
    assert_eq!(
        ideal(&state(107, 0, 2)),
        vec![
            order(PosSide::Long, Side::Buy, -1, 2, 95),
            order(PosSide::Long, Side::Buy, -2, 2, 90),
            order(PosSide::Short, Side::Buy, 0, 2, 100),
            order(PosSide::Short, Side::Sell, 2, 2, 110),
        ]
    );
}

#[test]
fn the_levels_hold_the_position() {
    for pos in 0..8 {
        let held: i128 = ideal(&state(80, pos, 0))
            .iter()
            .filter(|o| o.pos_side == PosSide::Long && o.side == Side::Sell)
            .map(|o| o.size)
            .sum();
        assert_eq!(held, pos * SCALE);
    }
}

#[test]
fn closing_orders_close_the_position() {
    for pos in 0..8 {
        let held: i128 = ideal(&state(150, 0, pos))
            .iter()
            .filter(|o| o.pos_side == PosSide::Short && o.side == Side::Buy)
            .map(|o| o.size)
            .sum();
        assert_eq!(held, pos * SCALE);
    }
    let held: i128 = ideal(&state(97, 3, 0))
        .iter()
        .filter(|o| o.pos_side == PosSide::Long && o.side == Side::Sell)
        .map(|o| o.size)
        .sum();
    assert_eq!(held, 2 * SCALE);
}

#[test]
fn the_order_of_the_book_does_not_matter() {
    let (config, geo) = (config(), geometry());
    let mut counter = OrderCounter::new();
    let mut st = state(94, 2, 1);
    let commands = reconciliation_scan(&config, &geo, &st, &mut counter);
    carry_out(&mut st, commands);
    let mut turned = state(94, 2, 1);
    for o in st.open_orders.entries().iter().rev() {
        turned.open_orders.insert(&o.id, o.size, o.price);
    }
    assert!(reconciliation_scan(&config, &geo, &turned, &mut counter).is_empty());
}

#[test]
fn no_order_of_the_grid_trades_at_once() {
    for price in 85..116 {
        for o in ideal(&state(price, 3, 1)) {
            assert!(o.size >= SCALE);
            match o.side {
                Side::Buy => assert!(o.price < price * SCALE),
                Side::Sell => assert!(o.price > price * SCALE),
            }
        }
    }
}

#[test]
fn no_slot_has_two_orders() {
    let orders = ideal(&state(94, 3, 1));
    for (i, a) in orders.iter().enumerate() {
        for b in &orders[i + 1..] {
            assert_ne!((a.pos_side, a.side, a.k), (b.pos_side, b.side, b.k));
        }
    }
}

#[test]
fn without_a_price_nothing_is_asked_for() {
    let mut st = state(0, 0, 0);
    st.open_orders.insert("NGBLBM1Rx", SCALE, SCALE);
    let mut counter = OrderCounter::new();
    assert!(reconciliation_scan(&config(), &geometry(), &st, &mut counter).is_empty());
    assert_eq!(counter.fetch_next(), 0);
}

#[test]
fn a_scan_places_what_is_missing() {
    let st = state(101, 0, 0);
    let mut counter = OrderCounter::new();
    let commands = reconciliation_scan(&config(), &geometry(), &st, &mut counter);
    assert_eq!(commands.len(), 1);
    match &commands[0] {
        WsCommand::Place(orders) => {
            assert_eq!(orders.len(), 4);
            assert!(orders[0].cl_ord_id.starts_with("NGBLBM1R"));
            assert_eq!((orders[0].price.as_str(), orders[0].size.as_str()), ("95", "2"));
            assert!(orders[3].cl_ord_id.starts_with("NGBSS2R"));
            assert_eq!((orders[3].pos_side, orders[3].side), (PosSide::Short, Side::Sell));
        }
        WsCommand::Cancel(_) => panic!("nothing to cancel"),
    }
    assert_eq!(counter.fetch_next(), 4);
}

#[test]
fn a_scan_cancels_first() {
    let mut st = state(101, 0, 0);
    st.open_orders.insert("NGBLBM1Ra", 2 * SCALE, 95 * SCALE);
    st.open_orders.insert("NGBLBM1Rb", 2 * SCALE, 95 * SCALE);
    st.open_orders.insert("NGBLBM2Ra", 2 * SCALE, 91 * SCALE);
    st.open_orders.insert("NGBstray", SCALE, SCALE);
    st.open_orders.insert("other", SCALE, SCALE);
    let mut counter = OrderCounter::new();
    let commands = reconciliation_scan(&config(), &geometry(), &st, &mut counter);
    match &commands[0] {
        WsCommand::Cancel(ids) => assert_eq!(ids, &["NGBLBM1Rb", "NGBLBM2Ra", "NGBstray"]),
        WsCommand::Place(_) => panic!("cancellations come first"),
    }
    match &commands[1] {
        WsCommand::Place(orders) => assert_eq!(orders.len(), 3),
        WsCommand::Cancel(_) => panic!("orders come last"),
    }
}

#[test]
fn small_deviations_are_kept() {
    let mut st = state(101, 0, 0);
    st.open_orders.insert("NGBLBM1Ra", 2 * SCALE + SCALE / 10 - 1, 95 * SCALE - SCALE / 10 + 1);
    st.open_orders.insert("NGBLBM2Ra", 2 * SCALE, 90 * SCALE + SCALE / 10);
    let asked = plan(&config(), &ideal(&st), st.open_orders.entries());
    assert_eq!(asked.cancel, vec!["NGBLBM2Ra"]);
    assert_eq!(asked.place.len(), 3);
}

#[test]
fn only_orders_of_the_grid_are_cancelled() {
    let mut st = state(101, 0, 0);
    st.open_orders.insert("other", SCALE, SCALE);
    st.open_orders.insert("NGx", SCALE, SCALE);
    let asked = plan(&config(), &ideal(&st), st.open_orders.entries());
    assert!(asked.cancel.is_empty());
}

#[test]
fn a_scan_settles() {
    let (config, geo) = (config(), geometry());
    let mut counter = OrderCounter::new();
    let mut st = state(101, 0, 0);
    st.open_orders.insert("NGBLBM1Rold", SCALE, 95 * SCALE);
    for (price, pos_long, pos_short) in [(101, 0, 0), (94, 2, 0), (112, 0, 4), (103, 1, 1)] {
        st.price = price * SCALE;
        st.pos_long = pos_long * SCALE;
        st.pos_short = pos_short * SCALE;
        let commands = reconciliation_scan(&config, &geo, &st, &mut counter);
        assert!(!commands.is_empty());
        carry_out(&mut st, commands);
        assert!(reconciliation_scan(&config, &geo, &st, &mut counter).is_empty());
    }
}

#[test]
fn a_placed_order_is_read_back() {
    let fine = Config { tick_sz: SCALE / 100, lot_sz: SCALE / 20, ..config() };
    let geo = fine.calculate(curve()).unwrap();
    let st = state(101, 0, 0);
    let wanted = list_ideal_orders(&fine, &geo, &st);
    let commands = reconciliation_scan(&fine, &geo, &st, &mut OrderCounter::new());
    match &commands[0] {
        WsCommand::Place(orders) => {
            for (o, w) in orders.iter().zip(&wanted) {
                assert_eq!(parse_amount(&o.price), Some(w.price));
                assert_eq!(parse_amount(&o.size), Some(w.size));
            }
            assert_eq!((orders[0].price.as_str(), orders[0].size.as_str()), ("95.00", "2.00"));
        }
        WsCommand::Cancel(_) => panic!("nothing to cancel"),
    }
}

#[test]
fn a_reported_order_is_known() {
    let mut st = state(101, 0, 0);
    let commands = reconciliation_scan(&config(), &geometry(), &st, &mut OrderCounter::new());
    carry_out(&mut st, commands);
    let known: Vec<(i128, i128)> =
        st.open_orders.entries().iter().map(|o| (o.size, o.price)).collect();
    assert_eq!(
        known,
        vec![
            (2 * SCALE, 95 * SCALE),
            (2 * SCALE, 90 * SCALE),
            (2 * SCALE, 105 * SCALE),
            (2 * SCALE, 110 * SCALE),
        ]
    );
}
