use neutral_grid::amount::SCALE;
use neutral_grid::json::parse_or_empty;
use neutral_grid::state::{has_id_mark, WsState};

const ID: &str = "NGBLBM1R5f";

fn live(state: &str, sz: &str, filled: &str, px: &str) -> String {
    format!(
        r#"{{"arg":{{"channel":"orders"}},"data":[{{"clOrdId":"{}","state":"{}","sz":"{}","accFillSz":"{}","px":"{}"}}]}}"#,
        ID, state, sz, filled, px
    )
}

fn position(side: &str, pos: &str) -> String {
    format!(
        r#"{{"arg":{{"channel":"positions"}},"data":[{{"posSide":"{}","pos":"{}"}}]}}"#,
        side, pos
    )
}

fn refused(code: &str) -> String {
    format!(
        r#"{{"op":"cancel-batch-orders","data":[{{"clOrdId":"{}","sCode":"{}"}}]}}"#,
        ID, code
    )
}

#[test]
fn nothing_is_known_at_first() {
    let st = WsState::default();
    assert_eq!((st.price, st.pos_long, st.pos_short), (0, 0, 0));
    assert_eq!(st.open_orders.len(), 0);
}

#[test]
fn the_ticker_gives_the_price() {
    let mut st = WsState::default();
    let ticker = r#"{"arg":{"channel":"tickers"},"data":[{"last":"2783.88"},{"last":"1"}]}"#;
    assert!(!st.apply_text(ticker));
    assert_eq!(st.price, 278_388 * SCALE / 100);
    assert!(!st.apply_text(r#"{"arg":{"channel":"tickers"},"data":[{"last":"x"}]}"#));
    assert_eq!(st.price, 278_388 * SCALE / 100);
    assert!(!st.apply_text(r#"{"arg":{"channel":"tickers"},"data":[]}"#));
    assert_eq!(st.price, 278_388 * SCALE / 100);
    assert!(!st.apply_text(r#"{"arg":{"channel":"tickers"},"data":[{}]}"#));
    assert_eq!(st.price, 0);
}

#[test]
fn a_ticker_that_is_no_number_leaves_no_price() {
    for word in ["NaN", "nan", "NAN", "-nan", "+NaN"] {
        let mut st = WsState::default();
        st.apply_text(r#"{"arg":{"channel":"tickers"},"data":[{"last":"5"}]}"#);
        assert_eq!(st.price, 5 * SCALE);
        let text = format!(r#"{{"arg":{{"channel":"tickers"}},"data":[{{"last":"{}"}}]}}"#, word);
        assert!(!st.apply_text(&text));
        assert_eq!(st.price, 0);
    }
    let mut st = WsState::default();
    st.apply_text(r#"{"arg":{"channel":"tickers"},"data":[{"last":"5"}]}"#);
    for word in ["", "nano", "na", "--nan", "n"] {
        let text = format!(r#"{{"arg":{{"channel":"tickers"}},"data":[{{"last":"{}"}}]}}"#, word);
        assert!(!st.apply_text(&text));
        assert_eq!(st.price, 5 * SCALE);
    }
}

#[test]
fn a_position_that_is_no_number_is_no_news() {
    let mut st = WsState::default();
    assert!(st.apply_text(&position("long", "3")));
    assert!(!st.apply_text(&position("long", "NaN")));
    assert!(!st.apply_text(&position("short", "-nan")));
    assert_eq!((st.pos_long, st.pos_short), (3 * SCALE, 0));
    assert!(st.apply_text(&position("long", "x")));
    assert_eq!(st.pos_long, 0);
}

#[test]
fn only_orders_of_the_grid_become_known() {
    let mut st = WsState::default();
    let text = r#"{"arg":{"channel":"orders"},"data":[{"clOrdId":"NGBa","state":"live","sz":"1","px":"2"},{"clOrdId":"xNGB","state":"live","sz":"1","px":"2"},{"state":"live"}]}"#;
    assert!(st.apply_text(text));
    assert!(st.open_orders.entries().iter().all(|o| o.id.starts_with("NGB")));
    assert_eq!(st.open_orders.len(), 1);
}

#[test]
fn positions_are_followed() {
    let mut st = WsState::default();
    assert!(st.apply_text(&position("long", "3")));
    assert!(st.apply_text(&position("short", "-2.5")));
    assert!(!st.apply_text(&position("net", "9")));
    assert_eq!((st.pos_long, st.pos_short), (3 * SCALE, 25 * SCALE / 10));
}

#[test]
fn a_repeated_position_is_no_news() {
    let mut st = WsState::default();
    assert!(st.apply_text(&position("long", "3")));
    assert!(!st.apply_text(&position("long", "3")));
    assert!(!st.apply_text(&position("long", "3.000001")));
    assert_eq!(st.pos_long, 3 * SCALE);
    assert!(st.apply_text(&position("long", "3.0000011")));
    assert_eq!(st.pos_long, 30_000_011_000);
}

#[test]
fn orders_are_followed() {
    let mut st = WsState::default();
    assert!(st.apply_text(&live("live", "2", "0", "95")));
    assert_eq!(st.open_orders.get(ID), Some((2 * SCALE, 95 * SCALE)));
    assert!(st.apply_text(&live("partially_filled", "2", "0.5", "95")));
    assert_eq!(st.open_orders.get(ID), Some((15 * SCALE / 10, 95 * SCALE)));
    assert!(st.apply_text(&live("filled", "2", "2", "95")));
    assert_eq!(st.open_orders.get(ID), None);
    assert!(!st.apply_text(&live("canceled", "2", "2", "95")));
}

#[test]
fn a_repeated_order_is_no_news() {
    let mut st = WsState::default();
    assert!(st.apply_text(&live("live", "2", "0", "95")));
    assert!(!st.apply_text(&live("live", "2", "0", "95")));
    assert!(!st.apply_text(&live("live", "2", "0", "95.000001")));
    assert!(st.apply_text(&live("live", "2", "0", "95.1")));
    assert_eq!(st.open_orders.len(), 1);
}

#[test]
fn a_refused_cancellation_removes_the_order() {
    let mut st = WsState::default();
    st.apply_text(&live("live", "2", "0", "95"));
    assert!(!st.apply_text(&refused("0")));
    assert_eq!(st.open_orders.len(), 1);
    assert!(st.apply_text(&refused("51400")));
    assert_eq!(st.open_orders.len(), 0);
}

#[test]
fn a_repeated_cancellation_is_no_news() {
    let mut st = WsState::default();
    st.apply_text(&live("live", "2", "0", "95"));
    assert!(st.apply_text(&refused("51400")));
    assert!(!st.apply_text(&refused("51400")));
}

#[test]
fn a_repeated_text_is_no_news() {
    let orders = r#"{"arg":{"channel":"orders"},"data":[{"clOrdId":"NGBa","state":"live","sz":"1","px":"2"},{"clOrdId":"NGBb","state":"filled"},{"clOrdId":"x"},{"clOrdId":"x"}]}"#;
    let positions = r#"{"arg":{"channel":"positions"},"data":[{"posSide":"long","pos":"1"},{"posSide":"short","pos":"2"}]}"#;
    let ticker = r#"{"arg":{"channel":"tickers"},"data":[{"last":"7"}]}"#;
    let mut st = WsState::default();
    for text in [orders, positions, ticker] {
        st.apply_text(text);
        let before = (st.price, st.pos_long, st.pos_short, st.open_orders.get("NGBa"));
        assert!(!st.apply_text(text));
        assert_eq!((st.price, st.pos_long, st.pos_short, st.open_orders.get("NGBa")), before);
    }
    assert_eq!(st.open_orders.len(), 1);
}

#[test]
fn no_change_goes_unnoticed() {
    let mut st = WsState::default();
    st.apply_text(&live("live", "2", "0", "95"));
    st.apply_text(&position("short", "4"));
    for text in ["pong", "", "[]", "{}", r#"{"event":"subscribe"}"#, r#"{"data":[]}"#] {
        assert!(!st.apply_text(text));
        assert_eq!((st.pos_long, st.pos_short), (0, 4 * SCALE));
        assert_eq!(st.open_orders.get(ID), Some((2 * SCALE, 95 * SCALE)));
    }
}

#[test]
fn foreign_orders_are_left_alone() {
    let mut st = WsState::default();
    let foreign = live("live", "2", "0", "95").replace(ID, "other1");
    assert!(!st.apply_text(&foreign));
    assert!(!st.apply_text(&live("live", "2", "0", "95").replace("clOrdId", "ordId")));
    let pending = r#"{"data":[{"clOrdId":"other2","sz":"1","px":"9"},{"sz":"1"}]}"#;
    st.load_pending(&parse_or_empty(pending));
    assert_eq!(st.open_orders.len(), 0);
    assert!(has_id_mark("NGBx") && !has_id_mark("NG") && !has_id_mark("xNGB"));
}

#[test]
fn what_the_exchange_lists_is_loaded() {
    let mut st = WsState::default();
    st.load_positions(&parse_or_empty(
        r#"{"data":[{"posSide":"long","pos":"1"},{"posSide":"short","pos":"-2"},{"posSide":"long","pos":"1.5"},{"pos":"8"}]}"#,
    ));
    assert_eq!((st.pos_long, st.pos_short), (15 * SCALE / 10, 2 * SCALE));
    st.load_pending(&parse_or_empty(
        r#"{"data":[{"clOrdId":"NGBa","sz":"3","accFillSz":"1","px":"90"},{"clOrdId":"NGBb"},{"clOrdId":"NGBa","sz":"3","accFillSz":"2","px":"90"}]}"#,
    ));
    assert_eq!(st.open_orders.get("NGBa"), Some((SCALE, 90 * SCALE)));
    assert_eq!(st.open_orders.get("NGBb"), Some((0, 0)));
    assert_eq!(st.open_orders.len(), 2);
    st.load_positions(&parse_or_empty("{}"));
    st.load_pending(&parse_or_empty("{}"));
    assert_eq!(st.open_orders.len(), 2);
}

#[test]
fn the_book_holds_each_id_once() {
    let mut st = WsState::default();
    st.open_orders.insert("NGBa", 1, 2);
    st.open_orders.insert("NGBb", 3, 4);
    st.open_orders.insert("NGBa", 5, 6);
    assert_eq!(st.open_orders.len(), 2);
    assert_eq!(st.open_orders.get("NGBa"), Some((5, 6)));
    assert!(st.open_orders.remove("NGBa"));
    assert!(!st.open_orders.remove("NGBa"));
    assert_eq!(st.open_orders.entries()[0].id, "NGBb");
}
