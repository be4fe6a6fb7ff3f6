use neutral_grid::amount::SCALE;
use neutral_grid::json::{parse_or_empty, Fields, Json};
use neutral_grid::models::PosSide;
use neutral_grid::okx::{
    check_answer, position_mode_outcome, read_answer, read_balance, request_time, OkxAdapter,
    SignedRequest,
};
use neutral_grid::rest::{Method, RestError};

const TIME: &str = "2024-01-02T03:04:05.678Z";

fn adapter() -> OkxAdapter {
    OkxAdapter::new("key", "sec", "pass", "https://relay.example//")
}

fn header<'a>(r: &'a SignedRequest, name: &str) -> Option<&'a str> {
    r.headers.iter().find(|h| h.0 == name).map(|h| h.1.as_str())
}

#[test]
fn requests_carry_the_time() {
    assert_eq!(request_time(1_704_164_645_678).as_deref(), Some(TIME));
    assert_eq!(request_time(0).as_deref(), Some("1970-01-01T00:00:00.000Z"));
    assert_eq!(request_time(i64::MAX), None);
}

#[test]
fn a_balance_is_asked_for() {
    let r = adapter().get_balance("USDT", TIME);
    assert_eq!(r.method, Method::Get);
    assert_eq!(r.url, "https://relay.example/api/v5/account/balance?ccy=USDT");
    assert_eq!(r.body, "");
    let expected: Vec<(String, String)> = [
        ("OK-ACCESS-KEY", "key"),
        ("OK-ACCESS-SIGN", "94SPFahxp2uFOIzzwGHUguOXzsmoVZMPsxAsdyAwY4E="),
        ("OK-ACCESS-TIMESTAMP", TIME),
        ("OK-ACCESS-PASSPHRASE", "pass"),
    ]
    .iter()
    .map(|h| (h.0.to_string(), h.1.to_string()))
    .collect();
    assert_eq!(r.headers, expected);
}

#[test]
fn a_body_is_signed_and_named() {
    let r = adapter().set_position_mode(TIME);
    assert_eq!(r.method, Method::Post);
    assert_eq!(r.url, "https://relay.example/api/v5/account/set-position-mode");
    assert_eq!(r.body, r#"{"posMode":"long_short_mode"}"#);
    assert_eq!(header(&r, "OK-ACCESS-SIGN"), Some("dO9dGuJc2k54MiIGVtch2cubPLF6qr45jHRpKc0IQnw="));
    assert_eq!(header(&r, "Content-Type"), Some("application/json"));
    assert_eq!(r.headers.len(), 5);
}

#[test]
fn requests_say_what_is_asked_for() {
    let okx = adapter();
    let r = okx.transfer_to_trading("USDT", 125 * SCALE / 10, TIME);
    assert_eq!(r.url, "https://relay.example/api/v5/asset/transfer");
    assert_eq!(r.body, r#"{"amt":"12.5","ccy":"USDT","from":"6","to":"18","type":"0"}"#);
    let r = okx.set_leverage("ETH-USDT-SWAP", PosSide::Short, 100, TIME);
    assert_eq!(r.url, "https://relay.example/api/v5/account/set-leverage");
    assert_eq!(
        r.body,
        r#"{"instId":"ETH-USDT-SWAP","lever":"100","mgnMode":"cross","posSide":"short"}"#
    );
    let r = okx.list_positions("ETH-USDT-SWAP", TIME);
    assert_eq!(r.url, "https://relay.example/api/v5/account/positions?instId=ETH-USDT-SWAP");
    let r = okx.list_pending("ETH-USDT-SWAP", TIME);
    assert_eq!(r.url, "https://relay.example/api/v5/trade/orders-pending?instId=ETH-USDT-SWAP");
}

#[test]
fn the_session_is_reached_and_logged_in() {
    let okx = adapter();
    assert_eq!(okx.ws_url(), "wss://relay.example/ws/v5/private");
    assert_eq!(OkxAdapter::new("", "", "", "http://h/").ws_url(), "ws://h/ws/v5/private");
    assert_eq!(
        okx.login_message("1700000000"),
        r#"{"args":[{"apiKey":"key","passphrase":"pass","sign":"/Xo27WEAEOgrjdrW3Fi0scHHKzyXhmqRnOi3VwNUlNc=","timestamp":"1700000000"}],"op":"login"}"#
    );
    assert_eq!(
        okx.sign("1700000000", "GET", "/users/self/verify", ""),
        "/Xo27WEAEOgrjdrW3Fi0scHHKzyXhmqRnOi3VwNUlNc="
    );
}

#[test]
fn answers_are_judged() {
    let ok = read_answer(true, "200 OK", r#"{"code":"0","data":[]}"#).unwrap();
    assert!(ok.items_at("data").unwrap().is_empty());
    let e = read_answer(false, "502 Bad Gateway", "oops").err().unwrap();
    assert_eq!(e.message, "502 Bad Gateway oops");
    let e = read_answer(false, "502 Bad Gateway", r#"{"code":"0"}"#).err().unwrap();
    assert_eq!(e.message, r#"502 Bad Gateway {"code":"0"}"#);
    let e = read_answer(true, "200 OK", r#"{"code":"50113","msg":"Invalid Sign"}"#).err().unwrap();
    assert_eq!(e.message, r#""50113" "Invalid Sign""#);
    let e = read_answer(true, "200 OK", r#"{"code":0}"#).err().unwrap();
    assert_eq!(e.message, "0 null");
    let e = read_answer(true, "200 OK", "no document").err().unwrap();
    assert_eq!(e.message, "null null");
    assert!(check_answer(Fields::new().text("code", "0").record()).is_ok());
    assert!(check_answer(Json::Null).is_err());
}

#[test]
fn the_balance_of_a_currency_is_read() {
    let answer = parse_or_empty(
        r#"{"data":[{"details":[{"ccy":"BTC","eq":"1"},{"ccy":"USDT","eq":"71.25"},{"ccy":"USDT","eq":"9"}]},{"details":[]}]}"#,
    );
    assert_eq!(read_balance(&answer, "USDT"), 7125 * SCALE / 100);
    assert_eq!(read_balance(&answer, "ETH"), 0);
    for text in ["{}", r#"{"data":[]}"#, r#"{"data":[{}]}"#, r#"{"data":{"details":[]}}"#] {
        assert_eq!(read_balance(&parse_or_empty(text), "USDT"), 0);
    }
}

#[test]
fn a_settled_position_mode_is_no_error() {
    assert!(position_mode_outcome(Ok(Json::Null)).is_ok());
    let settled = RestError { message: r#""51059" "Unavailable""#.to_string() };
    assert!(position_mode_outcome(Err(settled)).is_ok());
    let other = RestError { message: r#""50000" "Body""#.to_string() };
    assert_eq!(position_mode_outcome(Err(other)).err().unwrap().message, r#""50000" "Body""#);
}

#[test]
fn what_the_session_knows_is_given_out() {
    let mut okx = adapter();
    assert_eq!(okx.get_current_price("ETH-USDT-SWAP"), 0);
    okx.ws_state.price = 7;
    okx.ws_state.pos_long = 2;
    okx.ws_state.pos_short = 3;
    okx.ws_state.open_orders.insert("NGBa", 5, 6);
    assert_eq!(okx.get_current_price("ETH-USDT-SWAP"), 7);
    assert_eq!(okx.get_position("ETH-USDT-SWAP"), (2, 3));
    assert_eq!(okx.get_open_orders("ETH-USDT-SWAP").get("NGBa"), Some((5, 6)));
}
