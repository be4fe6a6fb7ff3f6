use neutral_grid::amount::SCALE;
use neutral_grid::binance::{
    check_answer, read_answer, read_option_position, BinanceAdapter, Params,
};
use neutral_grid::json::{parse_or_empty, Json};
use neutral_grid::options::{pick_options, read_quotes, OptionKind, Quote};
use neutral_grid::rest::Method;

const STAMP: &str = "1700000000123";
const OPTION: &str = "ETH-240105-2500-C";
const JAN_5: i64 = 1_704_441_600;
const JAN_12: i64 = 1_705_046_400;
const HALF_DAY: i64 = 43_200;

fn adapter() -> BinanceAdapter {
    BinanceAdapter::new("key", "sec", "https://relay.example/")
}

fn tickers() -> Json {
    parse_or_empty(
        r#"[
        {"symbol":"ETH-240105-2500-C","askPrice":"20"},
        {"symbol":"ETH-240105-2600-C","askPrice":"10"},
        {"symbol":"ETH-240105-2700-C","askPrice":"5"},
        {"symbol":"ETH-240105-2000-P","askPrice":"1"},
        {"symbol":"ETH-240105-2000-P","askPrice":"8"},
        {"symbol":"ETH-240112-2650-C","askPrice":"9"},
        {"symbol":"ETH-240105-9000-C","askPrice":"400"},
        {"symbol":"BTC-240105-2600-C","askPrice":"10"}
    ]"#,
    )
}

fn marks() -> Json {
    parse_or_empty(
        r#"[
        {"symbol":"BTC-240105-2600-C","delta":"0.1"},
        {"symbol":"ETH-240112-2650-C","delta":"0.1"},
        {"symbol":"ETH-240105-9000-C","delta":"0.1"},
        {"symbol":"ETH-240105-2400-C","delta":"0.1"},
        {"symbol":"ETH-240105-2500-C","delta":"0.3"},
        {"symbol":"ETH-240105-2600-C","delta":0.12},
        {"symbol":"ETH-240105-2700-C","delta":"0.08"},
        {"symbol":"ETH-240105-2000-P","delta":"-0.2"},
        {"symbol":"ETH-240105-2000-X","delta":"-0.1"},
        {"symbol":"ETH-24010x-2000-P","delta":"-0.1"},
        {"symbol":"ETH-240105-2000","delta":"-0.1"}
    ]"#,
    )
}

fn quote(symbol: &str, kind: OptionKind, expiry: i64, ask: i128, delta: i128) -> Quote {
    let (ask, delta) = (Some(ask), Some(delta));
    Quote { symbol: symbol.to_string(), kind, expiry, strike: 7 * SCALE, ask, delta }
}

#[test]
fn requests_of_anyone() {
    let bn = adapter();
    let r = bn.get_exchange_info();
    assert_eq!((r.method, r.url.as_str()), (Method::Get, "https://relay.example/eapi/v1/exchangeInfo"));
    assert_eq!(bn.list_tickers(None).url, "https://relay.example/eapi/v1/ticker");
    assert_eq!(bn.list_marks().url, "https://relay.example/eapi/v1/mark");
    assert_eq!(
        bn.list_tickers(Some(OPTION)).url,
        "https://relay.example/eapi/v1/ticker?symbol=ETH-240105-2500-C"
    );
    assert_eq!(bn.api_key(), "key");
}

#[test]
fn requests_of_the_account() {
    let bn = adapter();
    let r = bn.get_account(STAMP);
    assert_eq!(r.method, Method::Get);
    assert_eq!(
        r.url,
        "https://relay.example/eapi/v1/account?timestamp=1700000000123&recvWindow=5000&signature=05ae498719aeaed433014a96865e645830a6e3fc221dc5b8d6d7a9ac266fabcb"
    );
    let signed = "symbol=ETH-240105-2500-C&timestamp=1700000000123&recvWindow=5000&signature=2b06a1460571151b733ee341e87dbd038783466ce04323a5efb1eb3b510dfd6a";
    assert_eq!(
        bn.get_positions(Some(OPTION), STAMP).url,
        format!("https://relay.example/eapi/v1/position?{}", signed)
    );
    assert_eq!(
        bn.get_open_orders(Some(OPTION), STAMP).url,
        format!("https://relay.example/eapi/v1/openOrders?{}", signed)
    );
    assert!(bn.get_positions(None, STAMP).url.contains("/eapi/v1/position?timestamp="));
    assert_eq!(
        bn.get_option_position(OPTION, STAMP).unwrap().url,
        format!("https://relay.example/eapi/v1/position?{}", signed)
    );
    assert!(bn.get_option_position("", STAMP).is_none());
}

#[test]
fn queries_are_written() {
    assert_eq!(Params::new().query(), "");
    assert_eq!(Params::new().with("a", "1").query(), "a=1");
    assert_eq!(Params::new().with("a", "1").with("b", "").with("c", "x").query(), "a=1&b=&c=x");
}

#[test]
fn answers_of_the_exchange_are_judged() {
    assert!(read_answer(true, "200 OK", "[]").unwrap().as_array().unwrap().is_empty());
    assert!(read_answer(true, "200 OK", r#"{"code":0}"#).is_ok());
    assert!(read_answer(true, "200 OK", r#"{"code":"7"}"#).is_ok());
    assert!(read_answer(true, "200 OK", "no document").is_ok());
    let e = read_answer(true, "200 OK", r#"{"code":-1021,"msg":"Timestamp"}"#).err().unwrap();
    assert_eq!(e.message, r#"-1021 "Timestamp""#);
    let e = read_answer(false, "418 I'm a teapot", "banned").err().unwrap();
    assert_eq!(e.message, "418 I'm a teapot banned");
    assert!(check_answer(Json::Null).is_ok());
}

#[test]
fn quotes_are_read() {
    let quotes = read_quotes(&tickers(), &marks(), "ETH");
    let symbols: Vec<&str> = quotes.iter().map(|q| q.symbol.as_str()).collect();
    assert_eq!(
        symbols,
        vec![
            "ETH-240112-2650-C",
            "ETH-240105-9000-C",
            "ETH-240105-2400-C",
            "ETH-240105-2500-C",
            "ETH-240105-2600-C",
            "ETH-240105-2700-C",
            "ETH-240105-2000-P",
            "ETH-240105-2000-X",
        ]
    );
    assert_eq!(quotes[0].expiry, JAN_12);
    assert_eq!(quotes[1].expiry, JAN_5);
    assert_eq!((quotes[2].ask, quotes[2].strike), (Some(0), 2400 * SCALE));
    assert_eq!(quotes[4].delta, Some(12 * SCALE / 100));
    assert_eq!((quotes[6].kind, quotes[6].ask), (OptionKind::Put, Some(8 * SCALE)));
    assert_eq!(quotes[7].kind, OptionKind::Other);
    assert!(read_quotes(&parse_or_empty("{}"), &parse_or_empty("{}"), "ETH").is_empty());
}

#[test]
fn options_are_picked() {
    let r = BinanceAdapter::get_options_info(
        "ETH-USDT-SWAP",
        2400 * SCALE,
        SCALE / 10,
        &tickers(),
        &marks(),
        JAN_5 - HALF_DAY,
    );
    assert_eq!((r.p_be_up, r.call_sym.as_str()), (2600 * SCALE, "ETH-240105-2600-C"));
    assert_eq!((r.p_be_down, r.put_sym.as_str()), (2000 * SCALE, "ETH-240105-2000-P"));
}

#[test]
fn without_options_the_price_bounds_the_grid() {
    let late = BinanceAdapter::get_options_info(
        "ETH-USDT-SWAP",
        2400 * SCALE,
        SCALE / 10,
        &tickers(),
        &marks(),
        JAN_5 - HALF_DAY + 1,
    );
    assert_eq!((late.p_be_up, late.call_sym.as_str()), (2650 * SCALE, "ETH-240112-2650-C"));
    assert_eq!((late.p_be_down, late.put_sym.as_str()), (2160 * SCALE, ""));
    let none = pick_options(&vec![], 2400 * SCALE, SCALE / 10, 0);
    assert_eq!((none.p_be_down, none.p_be_up), (2160 * SCALE, 2640 * SCALE));
    assert_eq!((none.put_sym.as_str(), none.call_sym.as_str()), ("", ""));
}

#[test]
fn the_next_expiry_is_the_soonest() {
    let quotes = vec![
        quote("late", OptionKind::Call, 300_000, 1, 0),
        quote("soon", OptionKind::Call, 200_000, 1, 0),
        quote("gone", OptionKind::Call, 100_000, 1, 0),
    ];
    assert_eq!(pick_options(&quotes, SCALE, 0, 100_000).call_sym, "soon");
    assert_eq!(pick_options(&quotes, SCALE, 0, 0).call_sym, "gone");
    assert_eq!(pick_options(&quotes, SCALE, 0, 250_000).call_sym, "late");
    assert_eq!(pick_options(&quotes, SCALE, 0, 260_000).call_sym, "");
}

#[test]
fn the_picked_option_is_the_nearest() {
    let quotes = vec![
        quote("far", OptionKind::Put, 100_000, 1, -30),
        quote("first", OptionKind::Put, 100_000, 1, -12),
        quote("second", OptionKind::Put, 100_000, 1, -8),
        quote("call", OptionKind::Call, 100_000, 1, -10),
    ];
    assert_eq!(pick_options(&quotes, SCALE, 10, 0).put_sym, "first");
    assert_eq!(pick_options(&quotes, SCALE, 9, 0).put_sym, "second");
    assert_eq!(pick_options(&quotes, SCALE, 10, 0).call_sym, "call");
}

#[test]
fn a_delta_that_is_not_finite_is_never_picked() {
    for word in ["inf", "-Infinity", "NaN", "+nan"] {
        let mark = format!(r#"[{{"symbol":"ETH-240105-2500-C","delta":"{}"}}]"#, word);
        let quotes = read_quotes(&tickers(), &parse_or_empty(&mark), "ETH");
        assert_eq!(quotes[0].delta, None);
        assert_eq!(pick_options(&quotes, 2400 * SCALE, 0, 0).call_sym, "");
    }
    let mark = parse_or_empty(r#"[{"symbol":"ETH-240105-2500-C","delta":"?"}]"#);
    let quotes = read_quotes(&tickers(), &mark, "ETH");
    assert_eq!(quotes[0].delta, Some(0));
    assert_eq!(pick_options(&quotes, 2400 * SCALE, 0, 0).call_sym, OPTION);
}

#[test]
fn nothing_is_held_against_an_offer_that_is_no_number() {
    let ticker = parse_or_empty(r#"[{"symbol":"ETH-240105-2500-C","askPrice":"NaN"}]"#);
    let mark = parse_or_empty(r#"[{"symbol":"ETH-240105-2500-C","delta":"0.1"}]"#);
    let quotes = read_quotes(&ticker, &mark, "ETH");
    assert_eq!(quotes[0].ask, None);
    assert_eq!(pick_options(&quotes, SCALE, 0, 0).call_sym, OPTION);
    let r = adapter().order_option(OPTION, SCALE / 10, &ticker, STAMP).ok().unwrap();
    assert!(r.url.contains("&price=NaN&"));
}

#[test]
fn the_picked_option_is_worth_buying() {
    let quotes = vec![
        quote("dear", OptionKind::Call, 100_000, 151, 10),
        quote("unoffered", OptionKind::Call, 100_000, 0, 10),
        quote("limit", OptionKind::Call, 100_000, 150, 90),
    ];
    assert_eq!(pick_options(&quotes, 1000, 10, 0).call_sym, "limit");
    assert_eq!(pick_options(&quotes, 999, 10, 0).call_sym, "");
}

#[test]
fn the_position_in_an_option_is_read() {
    let list = parse_or_empty(
        r#"[{"symbol":"A","quantity":"1"},{"symbol":"B","position":"-2.5"},{"symbol":"C","positionAmt":"3"},{"symbol":"D"},{"symbol":"E","quantity":"4","position":"5"}]"#,
    );
    assert_eq!(read_option_position(&list, "A"), SCALE);
    assert_eq!(read_option_position(&list, "B"), 25 * SCALE / 10);
    assert_eq!(read_option_position(&list, "C"), 3 * SCALE);
    assert_eq!(read_option_position(&list, "D"), 0);
    assert_eq!(read_option_position(&list, "E"), 4 * SCALE);
    assert_eq!(read_option_position(&list, "F"), 0);
    let single = parse_or_empty(r#"{"symbol":"A","quantity":"-7"}"#);
    assert_eq!(read_option_position(&single, "A"), 7 * SCALE);
    assert_eq!(read_option_position(&single, "B"), 0);
}

#[test]
fn an_option_is_bought() {
    let bn = adapter();
    assert!(bn.buy_option("", SCALE).is_none());
    assert!(bn.buy_option(OPTION, SCALE / 100 - 1).is_none());
    let ask = bn.buy_option(OPTION, SCALE / 100).unwrap();
    assert_eq!(ask.url, "https://relay.example/eapi/v1/ticker?symbol=ETH-240105-2500-C");
    let r = bn.order_option(OPTION, SCALE / 10, &tickers(), STAMP).ok().unwrap();
    assert_eq!(r.method, Method::Post);
    assert_eq!(
        r.url,
        "https://relay.example/eapi/v1/order?symbol=ETH-240105-2500-C&side=BUY&type=LIMIT&quantity=0.10&price=21.00&timeInForce=IOC&timestamp=1700000000123&recvWindow=5000&signature=c0ff85eb0459c4fc5f55d23f810621f8c28a71060c9037528eff3084397d1c01"
    );
    let single = parse_or_empty(r#"{"askPrice":"1.25"}"#);
    let r = bn.order_option(OPTION, SCALE / 10, &single, STAMP).ok().unwrap();
    assert!(r.url.contains("&price=1.31&"));
}

#[test]
fn an_option_without_an_offer_is_not_bought() {
    let bn = adapter();
    for text in ["[]", "{}", r#"[{"askPrice":"0"}]"#, r#"{"askPrice":"-1"}"#, r#"[{"askPrice":"x"}]"#] {
        let e = bn.order_option(OPTION, SCALE, &parse_or_empty(text), STAMP).err().unwrap();
        assert_eq!(e.message, "Invalid ask price");
    }
}
