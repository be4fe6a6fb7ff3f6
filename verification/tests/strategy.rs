use neutral_grid::amount::SCALE;
use neutral_grid::binance::BinanceAdapter;
use neutral_grid::geometry::{Config, PriceCurve, StrategyGeometry};
use neutral_grid::models::{PosSide, WsCommand};
use neutral_grid::okx::OkxAdapter;
use neutral_grid::options::OptionsInfo;
use neutral_grid::session::{Frame, SessionEvent, SessionStep};
use neutral_grid::strategy::{
    bounded, choose_options, deployment, loop_step, missing_amount, start_timed_out,
    stream_closed, LoopEvent, LoopStep, NeutralGridBot, StartStep, Task,
};

fn config() -> Config {
    Config {
        p_be_up: 3100 * SCALE,
        p_be_down: 2500 * SCALE,
        fee_rate: SCALE / 2000,
        mmr: 4 * SCALE / 1000,
        q_s: SCALE / 10,
        grids: 10,
        tick_sz: SCALE / 100,
        lot_sz: SCALE / 100,
        ct_val: SCALE / 10,
        delta: SCALE / 10,
    }
}

fn curve() -> PriceCurve {
    let center = (3100.0f64 * 2500.0).sqrt();
    let q = (3100.0f64 / 2500.0).powf(1.0 / 20.0);
    let levels =
        (-10..=10).map(|k| (center * q.powi(k) * SCALE as f64).round() as i128).collect();
    let entry = (center * q.powf(5.5) * SCALE as f64).round() as i128;
    PriceCurve { levels, avg_entry_short: entry }
}

fn geometry() -> StrategyGeometry {
    config().calculate(curve()).unwrap()
}

fn bot() -> NeutralGridBot {
    let okx = OkxAdapter::new("", "", "", "https://relay.example");
    let bn = BinanceAdapter::new("", "", "https://relay.example");
    NeutralGridBot::new(okx, bn, config())
}

fn options(put: &str, call: &str) -> OptionsInfo {
    OptionsInfo {
        p_be_down: 2000 * SCALE,
        p_be_up: 3000 * SCALE,
        put_sym: put.to_string(),
        call_sym: call.to_string(),
    }
}

#[test]
fn the_first_price_is_taken() {
    let mut bot = bot();
    assert_eq!(bot.start("S", 0), StartStep::Wait);
    assert_eq!(bot.start("S", 20), StartStep::Wait);
    assert_eq!(bot.start("S", 21), StartStep::TimedOut);
    bot.okx_api.ws_state.price = 7;
    assert_eq!(bot.start("S", 0), StartStep::Proceed(7));
    assert_eq!(bot.start("S", 20), StartStep::Proceed(7));
    assert_eq!(bot.start("S", 21), StartStep::TimedOut);
    assert_eq!(start_timed_out(), "Timeout waiting for initial WS data");
}

#[test]
fn the_start_follows_its_steps() {
    for first in [0, 1, 13, 20, 21, 22] {
        let mut bot = bot();
        let mut retries = 0;
        let outcome = loop {
            bot.okx_api.ws_state.price = if retries >= first { 5 } else { 0 };
            match bot.start("S", retries) {
                StartStep::Wait => retries += 1,
                done => break done,
            }
        };
        let expected = if first <= 20 { StartStep::Proceed(5) } else { StartStep::TimedOut };
        assert_eq!(outcome, expected);
        assert_eq!(retries, first.min(21));
    }
}

#[test]
fn options_bound_the_grid() {
    let found = choose_options(&config(), Some(options("P", "C")));
    assert_eq!((found.put_sym.as_str(), found.call_sym.as_str()), ("P", "C"));
    let bounded = bounded(&config(), &found);
    assert_eq!((bounded.p_be_down, bounded.p_be_up), (2000 * SCALE, 3000 * SCALE));
    assert_eq!((bounded.q_s, bounded.grids), (SCALE / 10, 10));
    let none = choose_options(&config(), None);
    assert_eq!((none.p_be_down, none.p_be_up), (2500 * SCALE, 3100 * SCALE));
    assert_eq!((none.put_sym.as_str(), none.call_sym.as_str()), ("", ""));
}

#[test]
fn the_grid_is_set_up_in_order() {
    let tasks = deployment(&config(), &geometry(), &options("P", "C"));
    assert_eq!(tasks.len(), 6);
    match (&tasks[0], &tasks[1]) {
        (Task::Secure(call, a), Task::Secure(put, b)) => {
            assert_eq!((call.as_str(), put.as_str()), ("C", "P"));
            assert_eq!((*a, *b), (SCALE / 100, SCALE / 100));
        }
        _ => panic!("options come first"),
    }
    assert!(matches!(tasks[2], Task::SetPositionMode));
    assert!(matches!(tasks[3], Task::SetLeverage(PosSide::Long, 100)));
    assert!(matches!(tasks[4], Task::SetLeverage(PosSide::Short, 100)));
    assert!(matches!(tasks[5], Task::Fund(m) if m == geometry().margin_total));
}

#[test]
fn no_option_is_secured_where_there_is_none() {
    let tasks = deployment(&config(), &geometry(), &options("P", ""));
    assert_eq!(tasks.len(), 5);
    assert!(matches!(&tasks[0], Task::Secure(put, _) if put == "P"));
    let small = Config { ct_val: SCALE / 1000, ..config() };
    let tasks = deployment(&small, &geometry(), &options("P", "C"));
    assert_eq!(tasks.len(), 4);
}

#[test]
fn the_size_of_an_option_is_rounded_once() {
    let half = Config { ct_val: SCALE / 2, ..config() };
    let geo = StrategyGeometry { actual_q_s: 99_999_999, ..geometry() };
    assert_eq!(deployment(&half, &geo, &options("P", "C")).len(), 4);
    let geo = StrategyGeometry { actual_q_s: 100_000_000, ..geometry() };
    let tasks = deployment(&half, &geo, &options("P", "C"));
    assert!(matches!(tasks[0], Task::Secure(_, size) if size == SCALE / 100));
}

#[test]
fn the_margin_is_that_of_floats() {
    let (up, n, ct) = (3100.0f64, 10.0f64, 0.1f64);
    let center = (3100.0f64 * 2500.0).sqrt();
    let q = (3100.0f64 / 2500.0).powf(1.0 / 20.0);
    let entry = center * q.powf(5.5);
    let margin = 0.01 * n * ct * ((up - entry).max(0.0) + up * 0.004);
    let got = geometry().margin_total as f64 / SCALE as f64;
    assert!((got - margin).abs() < 1e-8);
}

#[test]
fn a_shortfall_is_made_up() {
    assert_eq!(missing_amount(None, 5), Some(5));
    assert_eq!(missing_amount(Some(2), 5), Some(3));
    assert_eq!(missing_amount(Some(5), 5), None);
    assert_eq!(missing_amount(Some(6), 5), None);
    assert_eq!(missing_amount(Some(-1), 5), Some(6));
    assert_eq!(missing_amount(None, -1), None);
}

#[test]
fn the_grid_is_kept() {
    assert_eq!(loop_step(LoopEvent::Tick), LoopStep::Scan);
    assert_eq!(loop_step(LoopEvent::Changed), LoopStep::SettleThenScan);
    assert_eq!(loop_step(LoopEvent::Closed), LoopStep::Stop);
    assert_eq!(stream_closed(), "WS stream disconnected");
}

#[test]
fn the_bot_follows_the_session_and_scans() {
    let mut bot = bot();
    let geo = geometry();
    assert!(bot.reconciliation_scan(&geo).is_empty());
    let ticker = r#"{"arg":{"channel":"tickers"},"data":[{"last":"2784"}]}"#;
    let event = SessionEvent::Arrived(Frame::Text(ticker.to_string()));
    assert!(matches!(bot.on_session_event("S", event), SessionStep::Continue));
    let commands = bot.reconciliation_scan(&geo);
    assert_eq!(commands.len(), 1);
    match &commands[0] {
        WsCommand::Place(orders) => {
            assert_eq!(orders.len(), 20);
            assert!(orders[0].cl_ord_id.starts_with("NGBLBM1R"));
            assert_eq!(orders[0].price, "2754.10");
            assert_eq!(orders[0].size, "0.01");
        }
        WsCommand::Cancel(_) => panic!("nothing to cancel"),
    }
    assert_eq!(bot.counter.fetch_next(), 20);
}
