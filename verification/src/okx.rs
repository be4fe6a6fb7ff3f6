//! The exchange of the grid: signed requests, the trading session's messages, and what
//! its answers say.
use crate::amount::in_range;
use crate::book::OpenOrders;
use crate::decimal::{law_shown_amount_is_read_back, show_amount, shown};
use crate::json::{
    document_or_empty, find_with, first_with, json_text, law_first_field_counts,
    law_first_item_with_a_text, list, parse_or_empty, render_json, views, Fields, Json, JsonView,
};
use crate::models::PosSide;
use crate::rest::{join, join_spaced, refusal, refuse, spaced, Method, RestError};
use crate::signing::{base64_signature, sign_base64};
use crate::state::{nothing_known, WsState};
use crate::text::{
    contains_text, digits_value, holds_text, law_number_is_read_back, law_replaced_text, radix,
    radix_text, replace_all, replaced, stands_at, trim_trailing, without_trailing,
};
use vstd::prelude::*;

verus! {

/// The account at the exchange, and where the exchange is reached.
pub struct Account {
    api_key: String,
    secret: String,
    pass: String,
    base_url: String,
}

/// The exchange: the account there, and what the trading session knows of it.
pub struct OkxAdapter {
    pub account: Account,
    pub ws_state: WsState,
}

/// The account at the exchange, in texts.
pub struct OkxView {
    pub api_key: Seq<char>,
    pub secret: Seq<char>,
    pub pass: Seq<char>,
    pub base_url: Seq<char>,
}

impl View for OkxAdapter {
    type V = OkxView;

    open spec fn view(&self) -> OkxView {
        self.account@
    }
}

impl View for Account {
    type V = OkxView;

    closed spec fn view(&self) -> OkxView {
        OkxView {
            api_key: self.api_key@,
            secret: self.secret@,
            pass: self.pass@,
            base_url: self.base_url@,
        }
    }
}

/// The text of a time in UTC, given in milliseconds from the start of 1970, as
/// `chrono::DateTime::format` writes it; `None` where there is no such time or the format
/// cannot be written.
pub uninterp spec fn utc_text(millis: i64, format: Seq<char>) -> Option<Seq<char>>;

/// `chrono::DateTime::from_timestamp_millis`, then `format` and `write_to` of that crate:
/// the text of a time in UTC. What a given time becomes is left to `utc_text`.
#[verifier::external_body]
fn utc_time(millis: i64, format: &str) -> (r: Option<String>)
    ensures
        r is Some <==> utc_text(millis, format@) is Some,
        r matches Some(t) ==> utc_text(millis, format@) == Some(t@),
{
    let time = chrono::DateTime::from_timestamp_millis(millis)?;
    let mut text = String::new();
    time.format(format).write_to(&mut text).ok()?;
    Some(text)
}

/// Writes a time, in milliseconds, as requests carry it.
pub fn request_time(millis: i64) -> (r: Option<String>)
    ensures
        r is Some <==> utc_text(millis, "%Y-%m-%dT%H:%M:%S%.3fZ"@) is Some,
        r matches Some(t) ==> utc_text(millis, "%Y-%m-%dT%H:%M:%S%.3fZ"@) == Some(t@),
{
    utc_time(millis, "%Y-%m-%dT%H:%M:%S%.3fZ")
}

/// A request that is ready to be sent.
pub struct SignedRequest {
    pub method: Method,
    pub url: String,
    pub headers: Vec<(String, String)>,
    pub body: String,
}

/// The texts of a list of headers.
pub open spec fn header_texts(headers: Seq<(String, String)>) -> Seq<(Seq<char>, Seq<char>)> {
    Seq::new(headers.len(), |i: int| (headers[i].0@, headers[i].1@))
}

/// The signature of a request.
pub open spec fn signature(
    okx: OkxView,
    timestamp: Seq<char>,
    method: Seq<char>,
    path: Seq<char>,
    body: Seq<char>,
) -> Seq<char> {
    base64_signature(okx.secret, timestamp + method + path + body)
}

/// The headers of a request: the account, the signature, the time, and what the body is,
/// where there is one.
pub open spec fn request_headers(
    okx: OkxView,
    timestamp: Seq<char>,
    method: Method,
    path: Seq<char>,
    body: Seq<char>,
) -> Seq<(Seq<char>, Seq<char>)> {
    let account = seq![
        ("OK-ACCESS-KEY"@, okx.api_key),
        ("OK-ACCESS-SIGN"@, signature(okx, timestamp, method.verb(), path, body)),
        ("OK-ACCESS-TIMESTAMP"@, timestamp),
        ("OK-ACCESS-PASSPHRASE"@, okx.pass),
    ];
    if body.len() == 0 {
        account
    } else {
        account.push(("Content-Type"@, "application/json"@))
    }
}

/// Adds a header.
fn add_header(headers: &mut Vec<(String, String)>, name: &str, value: &str)
    ensures
        header_texts(final(headers)@) == header_texts(old(headers)@).push((name@, value@)),
{
    let ghost before = headers@;
    headers.push((name.to_owned(), value.to_owned()));
    assert(header_texts(headers@) == header_texts(before).push((name@, value@)));
}

/// A request in texts.
#[verifier::ext_equal]
pub struct RequestView {
    pub method: Method,
    pub url: Seq<char>,
    pub headers: Seq<(Seq<char>, Seq<char>)>,
    pub body: Seq<char>,
}

impl View for SignedRequest {
    type V = RequestView;

    open spec fn view(&self) -> RequestView {
        RequestView {
            method: self.method,
            url: self.url@,
            headers: header_texts(self.headers@),
            body: self.body@,
        }
    }
}

/// The body of a request, in text.
pub open spec fn body_text(body: Option<JsonView>) -> Seq<char> {
    match body {
        Some(v) => json_text(v),
        None => Seq::empty(),
    }
}

/// The request that is made at the time `timestamp`.
pub open spec fn request(
    okx: OkxView,
    method: Method,
    path: Seq<char>,
    body: Option<JsonView>,
    timestamp: Seq<char>,
) -> RequestView {
    RequestView {
        method,
        url: okx.base_url + path,
        headers: request_headers(okx, timestamp, method, path, body_text(body)),
        body: body_text(body),
    }
}

/// What a document says, where there is one.
pub open spec fn body_view(body: Option<&Json>) -> Option<JsonView> {
    match body {
        Some(j) => Some(j@),
        None => None,
    }
}

/// The address of the trading session.
pub open spec fn session_url(base_url: Seq<char>) -> Seq<char> {
    replaced(replaced(base_url, "https://"@, "wss://"@), "http://"@, "ws://"@)
        + "/ws/v5/private"@
}

/// The fields by which the session is logged in.
pub open spec fn login_fields(okx: OkxView, timestamp: Seq<char>) -> Seq<(Seq<char>, JsonView)> {
    let sign = signature(okx, timestamp, "GET"@, "/users/self/verify"@, Seq::empty());
    seq![
        ("apiKey"@, JsonView::Text(okx.api_key)),
        ("passphrase"@, JsonView::Text(okx.pass)),
        ("timestamp"@, JsonView::Text(timestamp)),
        ("sign"@, JsonView::Text(sign)),
    ]
}

/// A message that asks for an operation on some arguments.
pub open spec fn operation(op: Seq<char>, args: Seq<JsonView>) -> JsonView {
    JsonView::Record(seq![("op"@, JsonView::Text(op)), ("args"@, JsonView::List(args))])
}

/// The message that logs the session in.
pub open spec fn login_document(okx: OkxView, timestamp: Seq<char>) -> JsonView {
    operation("login"@, seq![JsonView::Record(login_fields(okx, timestamp))])
}

/// Writes a message that asks for an operation on some arguments.
pub fn operation_message(op: &str, args: Vec<Json>) -> (text: String)
    ensures
        text@ == json_text(operation(op@, views(args@))),
{
    let fields = Fields::new().text("op", op).value("args", list(args));
    assert(fields@ == operation(op@, views(args@))->Record_0);
    render_json(&fields.record())
}

impl OkxAdapter {
    /// An account. The address loses the slashes at its end.
    pub fn new(key: &str, sec: &str, pass: &str, base_url: &str) -> (r: OkxAdapter)
        ensures
            r@ == (OkxView {
                api_key: key@,
                secret: sec@,
                pass: pass@,
                base_url: without_trailing(base_url@, '/'),
            }),
            r.ws_state.wf(),
            r.ws_state@ == nothing_known(),
    {
        OkxAdapter {
            account: Account {
                api_key: key.to_owned(),
                secret: sec.to_owned(),
                pass: pass.to_owned(),
                base_url: trim_trailing(base_url, '/'),
            },
            ws_state: WsState::default(),
        }
    }

    /// Signs a request.
    pub fn sign(&self, timestamp: &str, method: &str, path: &str, body: &str) -> (s: String)
        ensures
            s@ == signature(self@, timestamp@, method@, path@, body@),
    {
        let mut message = timestamp.to_owned();
        message.append(method);
        message.append(path);
        message.append(body);
        sign_base64(self.account.secret.as_str(), message.as_str())
    }

    /// Makes a request ready to be sent at the time `timestamp`.
    pub fn rest_request(
        &self,
        method: Method,
        path: &str,
        body: Option<&Json>,
        timestamp: &str,
    ) -> (r: SignedRequest)
        ensures
            r@ == request(self@, method, path@, body_view(body), timestamp@),
    {
        let url = join(self.account.base_url.as_str(), path);
        let body_str = match body {
            Some(b) => render_json(b),
            None => String::new(),
        };
        let sign = self.sign(timestamp, method.as_str(), path, body_str.as_str());
        let mut headers: Vec<(String, String)> = Vec::new();
        assert(header_texts(headers@) == Seq::<(Seq<char>, Seq<char>)>::empty());
        add_header(&mut headers, "OK-ACCESS-KEY", self.account.api_key.as_str());
        add_header(&mut headers, "OK-ACCESS-SIGN", sign.as_str());
        add_header(&mut headers, "OK-ACCESS-TIMESTAMP", timestamp);
        add_header(&mut headers, "OK-ACCESS-PASSPHRASE", self.account.pass.as_str());
        if !body_str.as_str().is_empty() {
            add_header(&mut headers, "Content-Type", "application/json");
        }
        assert(header_texts(headers@) == request_headers(
            self@,
            timestamp@,
            method,
            path@,
            body_str@,
        ));
        SignedRequest { method, url, headers, body: body_str }
    }

    /// The address of the trading session.
    pub fn ws_url(&self) -> (url: String)
        ensures
            url@ == session_url(self@.base_url),
    {
        proof {
            reveal_strlit("https://");
            reveal_strlit("http://");
        }
        let secure = replace_all(self.account.base_url.as_str(), "https://", "wss://");
        let plain = replace_all(secure.as_str(), "http://", "ws://");
        join(plain.as_str(), "/ws/v5/private")
    }

    /// The message that logs the session in at the time `timestamp`.
    pub fn login_message(&self, timestamp: &str) -> (text: String)
        ensures
            text@ == json_text(login_document(self@, timestamp@)),
    {
        proof {
            reveal_strlit("");
        }
        assert(""@ == Seq::<char>::empty());
        let sign = self.sign(timestamp, "GET", "/users/self/verify", "");
        let entry = Fields::new().text("apiKey", self.account.api_key.as_str()).text(
            "passphrase",
            self.account.pass.as_str(),
        ).text("timestamp", timestamp).text("sign", sign.as_str());
        assert(entry@ == login_fields(self@, timestamp@));
        let mut args: Vec<Json> = Vec::new();
        args.push(entry.record());
        assert(views(args@) == seq![JsonView::Record(login_fields(self@, timestamp@))]);
        operation_message("login", args)
    }
}

/// The equity that an answer gives for a currency; zero where it gives none.
pub open spec fn balance_of(answer: JsonView, ccy: Seq<char>) -> int {
    match answer.items_at("data"@) {
        Some(data) => if data.len() == 0 {
            0
        } else {
            match data[0].items_at("details"@) {
                Some(details) => match first_with(details, "ccy"@, ccy) {
                    Some(detail) => detail.amount_at("eq"@),
                    None => 0,
                },
                None => 0,
            }
        },
        None => 0,
    }
}

/// Reads the equity that an answer gives for a currency.
pub fn read_balance(answer: &Json, ccy: &str) -> (eq: i128)
    ensures
        eq == balance_of(answer@, ccy@),
        in_range(eq as int),
{
    let data = match answer.items_at("data") {
        Some(data) => data,
        None => {
            return 0;
        },
    };
    if data.len() == 0 {
        return 0;
    }
    match data[0].items_at("details") {
        Some(details) => match find_with(details, "ccy", ccy) {
            Some(detail) => detail.amount_at("eq"),
            None => 0,
        },
        None => 0,
    }
}

/// Does the exchange say that it did what was asked?
pub open spec fn is_accepted(answer: JsonView) -> bool {
    answer.text_at("code"@) == Some("0"@)
}

/// Takes the answer to a request, or the error that it carries.
pub fn check_answer(answer: Json) -> (r: Result<Json, RestError>)
    ensures
        r is Ok <==> is_accepted(answer@),
        r matches Ok(j) ==> j@ == answer@,
        r matches Err(e) ==> e.message@ == refusal(answer@),
{
    if answer.has_text("code", "0") {
        Ok(answer)
    } else {
        Err(refuse(&answer))
    }
}

/// Reads the answer to a request, or the error that the status, or the answer, gives.
pub fn read_answer(success: bool, status: &str, text: &str) -> (r: Result<Json, RestError>)
    ensures
        r is Ok <==> success && is_accepted(document_or_empty(text@)),
        r matches Ok(j) ==> j@ == document_or_empty(text@),
        r matches Err(e) ==> e.message@ == if success {
            refusal(document_or_empty(text@))
        } else {
            spaced(status@, text@)
        },
{
    if !success {
        return Err(RestError { message: join_spaced(status, text) });
    }
    check_answer(parse_or_empty(text))
}

/// The fields of a transfer between the accounts for funding and for trading.
pub open spec fn transfer_fields(ccy: Seq<char>, amt: int) -> Seq<(Seq<char>, JsonView)> {
    seq![
        ("ccy"@, JsonView::Text(ccy)),
        ("amt"@, JsonView::Text(shown(amt))),
        ("from"@, JsonView::Text("6"@)),
        ("to"@, JsonView::Text("18"@)),
        ("type"@, JsonView::Text("0"@)),
    ]
}

/// The name of a position side.
pub open spec fn pos_side_name(pos_side: PosSide) -> Seq<char> {
    match pos_side {
        PosSide::Long => "long"@,
        PosSide::Short => "short"@,
    }
}

/// The name of a position side.
pub fn pos_side_str(pos_side: PosSide) -> (s: &'static str)
    ensures
        s@ == pos_side_name(pos_side),
{
    match pos_side {
        PosSide::Long => "long",
        PosSide::Short => "short",
    }
}

/// The fields of a leverage setting.
pub open spec fn leverage_fields(symbol: Seq<char>, pos_side: PosSide, leverage: u32) -> Seq<
    (Seq<char>, JsonView),
> {
    seq![
        ("instId"@, JsonView::Text(symbol)),
        ("lever"@, JsonView::Text(radix(leverage as nat, 10))),
        ("mgnMode"@, JsonView::Text("cross"@)),
        ("posSide"@, JsonView::Text(pos_side_name(pos_side))),
    ]
}

/// Is the position mode refused only because it cannot change now?
pub open spec fn mode_is_settled(e: RestError) -> bool {
    holds_text(e.message@, "51059"@)
}

/// Judges the outcome of setting the position mode. That it cannot be changed while
/// positions or orders are open is no error.
pub fn position_mode_outcome(outcome: Result<Json, RestError>) -> (r: Result<(), RestError>)
    ensures
        r is Ok <==> outcome is Ok || mode_is_settled(outcome->Err_0),
        r matches Err(e) ==> Err::<Json, RestError>(e) == outcome,
{
    match outcome {
        Ok(_) => Ok(()),
        Err(e) => if contains_text(e.message.as_str(), "51059") {
            Ok(())
        } else {
            Err(e)
        },
    }
}

impl OkxAdapter {
    /// Asks for the balance of a currency.
    pub fn get_balance(&self, ccy: &str, timestamp: &str) -> (r: SignedRequest)
        ensures
            r@ == request(
                self@,
                Method::Get,
                "/api/v5/account/balance?ccy="@ + ccy@,
                None,
                timestamp@,
            ),
    {
        let path = join("/api/v5/account/balance?ccy=", ccy);
        self.rest_request(Method::Get, path.as_str(), None, timestamp)
    }

    /// Asks for a transfer from the account for funding to the one for trading.
    pub fn transfer_to_trading(&self, ccy: &str, amt: i128, timestamp: &str) -> (r: SignedRequest)
        requires
            amt > i128::MIN,
        ensures
            r@ == request(
                self@,
                Method::Post,
                "/api/v5/asset/transfer"@,
                Some(JsonView::Record(transfer_fields(ccy@, amt as int))),
                timestamp@,
            ),
    {
        let amount = show_amount(amt);
        let fields = Fields::new().text("ccy", ccy).text("amt", amount.as_str()).text(
            "from",
            "6",
        ).text("to", "18").text("type", "0");
        assert(fields@ == transfer_fields(ccy@, amt as int));
        let payload = fields.record();
        self.rest_request(Method::Post, "/api/v5/asset/transfer", Some(&payload), timestamp)
    }

    /// Asks for positions to be held on both sides.
    pub fn set_position_mode(&self, timestamp: &str) -> (r: SignedRequest)
        ensures
            r@ == request(
                self@,
                Method::Post,
                "/api/v5/account/set-position-mode"@,
                Some(
                    JsonView::Record(seq![("posMode"@, JsonView::Text("long_short_mode"@))]),
                ),
                timestamp@,
            ),
    {
        let fields = Fields::new().text("posMode", "long_short_mode");
        assert(fields@ == seq![("posMode"@, JsonView::Text("long_short_mode"@))]);
        let payload = fields.record();
        self.rest_request(
            Method::Post,
            "/api/v5/account/set-position-mode",
            Some(&payload),
            timestamp,
        )
    }

    /// Asks for a leverage on one side.
    pub fn set_leverage(
        &self,
        symbol: &str,
        pos_side: PosSide,
        leverage: u32,
        timestamp: &str,
    ) -> (r: SignedRequest)
        ensures
            r@ == request(
                self@,
                Method::Post,
                "/api/v5/account/set-leverage"@,
                Some(JsonView::Record(leverage_fields(symbol@, pos_side, leverage))),
                timestamp@,
            ),
    {
        let lever = radix_text(leverage as u128, 10);
        let fields = Fields::new().text("instId", symbol).text("lever", lever.as_str()).text(
            "mgnMode",
            "cross",
        ).text("posSide", pos_side_str(pos_side));
        assert(fields@ == leverage_fields(symbol@, pos_side, leverage));
        let payload = fields.record();
        self.rest_request(Method::Post, "/api/v5/account/set-leverage", Some(&payload), timestamp)
    }

    /// Asks for the positions in an instrument.
    pub fn list_positions(&self, symbol: &str, timestamp: &str) -> (r: SignedRequest)
        ensures
            r@ == request(
                self@,
                Method::Get,
                "/api/v5/account/positions?instId="@ + symbol@,
                None,
                timestamp@,
            ),
    {
        let path = join("/api/v5/account/positions?instId=", symbol);
        self.rest_request(Method::Get, path.as_str(), None, timestamp)
    }

    /// Asks for the pending orders in an instrument.
    pub fn list_pending(&self, symbol: &str, timestamp: &str) -> (r: SignedRequest)
        ensures
            r@ == request(
                self@,
                Method::Get,
                "/api/v5/trade/orders-pending?instId="@ + symbol@,
                None,
                timestamp@,
            ),
    {
        let path = join("/api/v5/trade/orders-pending?instId=", symbol);
        self.rest_request(Method::Get, path.as_str(), None, timestamp)
    }

    /// The positions, long and short.
    pub fn get_position(&self, _symbol: &str) -> (r: (i128, i128))
        ensures
            r.0 == self.ws_state@.pos_long,
            r.1 == self.ws_state@.pos_short,
    {
        (self.ws_state.pos_long, self.ws_state.pos_short)
    }

    /// The open orders.
    pub fn get_open_orders(&self, _symbol: &str) -> (r: &OpenOrders)
        ensures
            *r == self.ws_state.open_orders,
    {
        &self.ws_state.open_orders
    }

    /// The last price.
    pub fn get_current_price(&self, _symbol: &str) -> (price: i128)
        ensures
            price == self.ws_state@.price,
    {
        self.ws_state.price
    }
}

/// A request goes to the path below the address, is signed over the time, the verb, the
/// path and the body under the secret, names the account by key and pass, and says what
/// its body is exactly where it has one.
pub proof fn law_request_is_signed_as_it_is_sent(
    okx: OkxView,
    method: Method,
    path: Seq<char>,
    body: Option<JsonView>,
    timestamp: Seq<char>,
)
    ensures
        ({
            let r = request(okx, method, path, body, timestamp);
            let verb = match method {
                Method::Get => "GET"@,
                Method::Post => "POST"@,
            };
            &&& r.method == method
            &&& r.url == okx.base_url + path
            &&& body matches Some(v) ==> r.body == json_text(v)
            &&& body is None ==> r.body.len() == 0
            &&& r.headers.len() == if r.body.len() > 0 {
                5int
            } else {
                4int
            }
            &&& r.headers[0] == ("OK-ACCESS-KEY"@, okx.api_key)
            &&& r.headers[1] == (
                "OK-ACCESS-SIGN"@,
                base64_signature(okx.secret, timestamp + verb + path + r.body),
            )
            &&& r.headers[2] == ("OK-ACCESS-TIMESTAMP"@, timestamp)
            &&& r.headers[3] == ("OK-ACCESS-PASSPHRASE"@, okx.pass)
            &&& r.body.len() > 0 ==> r.headers[4] == ("Content-Type"@, "application/json"@)
        }),
{
}

/// The message that logs in names the account by key and pass and carries a signature of
/// the time and the place of the login.
pub proof fn law_login_is_signed(okx: OkxView, timestamp: Seq<char>)
    ensures
        ({
            let message = login_document(okx, timestamp);
            let args = message.items_at("args"@)->0;
            &&& message.text_at("op"@) == Some("login"@)
            &&& message.items_at("args"@) is Some && args.len() == 1
            &&& args[0].text_at("apiKey"@) == Some(okx.api_key)
            &&& args[0].text_at("passphrase"@) == Some(okx.pass)
            &&& args[0].text_at("timestamp"@) == Some(timestamp)
            &&& args[0].text_at("sign"@) == Some(
                base64_signature(
                    okx.secret,
                    timestamp + "GET"@ + "/users/self/verify"@ + Seq::<char>::empty(),
                ),
            )
        }),
{
    reveal_strlit("op");
    reveal_strlit("args");
    reveal_strlit("apiKey");
    reveal_strlit("passphrase");
    reveal_strlit("timestamp");
    reveal_strlit("sign");
    assert("op"@.len() == 2 && "args"@.len() == 4);
    assert("apiKey"@.len() == 6 && "passphrase"@.len() == 10 && "timestamp"@.len() == 9
        && "sign"@.len() == 4);
    let fields = login_document(okx, timestamp)->Record_0;
    law_first_field_counts(fields, "op"@, 0);
    law_first_field_counts(fields, "args"@, 1);
    let entry = login_fields(okx, timestamp);
    law_first_field_counts(entry, "apiKey"@, 0);
    law_first_field_counts(entry, "passphrase"@, 1);
    law_first_field_counts(entry, "timestamp"@, 2);
    law_first_field_counts(entry, "sign"@, 3);
}

/// A transfer says the currency and the amount, and goes from account `6` to account `18`;
/// the amount is read back.
pub proof fn law_transfer_says_the_amount(ccy: Seq<char>, amt: int)
    requires
        in_range(amt),
    ensures
        ({
            let payload = JsonView::Record(transfer_fields(ccy, amt));
            &&& payload.text_at("ccy"@) == Some(ccy)
            &&& payload.amount_at("amt"@) == amt
            &&& payload.text_at("from"@) == Some("6"@)
            &&& payload.text_at("to"@) == Some("18"@)
            &&& payload.text_at("type"@) == Some("0"@)
        }),
{
    reveal_strlit("ccy");
    reveal_strlit("amt");
    reveal_strlit("from");
    reveal_strlit("to");
    reveal_strlit("type");
    assert("ccy"@.len() == 3 && "ccy"@[0] == 'c');
    assert("amt"@.len() == 3 && "amt"@[0] == 'a');
    assert("from"@.len() == 4 && "from"@[0] == 'f');
    assert("to"@.len() == 2);
    assert("type"@.len() == 4 && "type"@[0] == 't');
    let fields = transfer_fields(ccy, amt);
    law_first_field_counts(fields, "ccy"@, 0);
    law_first_field_counts(fields, "amt"@, 1);
    law_first_field_counts(fields, "from"@, 2);
    law_first_field_counts(fields, "to"@, 3);
    law_first_field_counts(fields, "type"@, 4);
    law_shown_amount_is_read_back(amt);
}

/// A leverage setting names the instrument and the side, and says the leverage in digits.
pub proof fn law_leverage_says_the_side(symbol: Seq<char>, pos_side: PosSide, leverage: u32)
    ensures
        ({
            let payload = JsonView::Record(leverage_fields(symbol, pos_side, leverage));
            &&& payload.text_at("instId"@) == Some(symbol)
            &&& payload.text_at("lever"@) matches Some(t) && digits_value(t) == leverage
            &&& payload.text_at("mgnMode"@) == Some("cross"@)
            &&& payload.text_at("posSide"@) == Some("long"@) <==> pos_side == PosSide::Long
            &&& payload.text_at("posSide"@) == Some("short"@) <==> pos_side == PosSide::Short
        }),
{
    reveal_strlit("instId");
    reveal_strlit("lever");
    reveal_strlit("mgnMode");
    reveal_strlit("posSide");
    reveal_strlit("long");
    reveal_strlit("short");
    assert("long"@.len() == 4 && "short"@.len() == 5);
    assert("instId"@.len() == 6 && "lever"@.len() == 5);
    assert("mgnMode"@.len() == 7 && "mgnMode"@[0] == 'm');
    assert("posSide"@.len() == 7 && "posSide"@[0] == 'p');
    let fields = leverage_fields(symbol, pos_side, leverage);
    law_first_field_counts(fields, "instId"@, 0);
    law_first_field_counts(fields, "lever"@, 1);
    law_first_field_counts(fields, "mgnMode"@, 2);
    law_first_field_counts(fields, "posSide"@, 3);
    law_number_is_read_back(leverage as nat);
}

/// The balance is the equity in the first detail of the first entry that is in the
/// currency, and zero where there is none.
pub proof fn law_balance_is_of_the_currency(
    answer: JsonView,
    details: Seq<JsonView>,
    ccy: Seq<char>,
    i: int,
)
    requires
        answer.items_at("data"@) matches Some(data) && data.len() > 0 && data[0].items_at(
            "details"@,
        ) == Some(details),
    ensures
        0 <= i < details.len() && details[i].text_at("ccy"@) == Some(ccy) && (forall|j: int|
            0 <= j < i ==> (#[trigger] details[j]).text_at("ccy"@) != Some(ccy)) ==> balance_of(
            answer,
            ccy,
        ) == details[i].amount_at("eq"@),
        (forall|j: int|
            0 <= j < details.len() ==> (#[trigger] details[j]).text_at("ccy"@) != Some(ccy))
            ==> balance_of(answer, ccy) == 0,
{
    law_first_item_with_a_text(details, "ccy"@, ccy);
    if let Some(item) = first_with(details, "ccy"@, ccy) {
        let w = choose|w: int| #![trigger details[w]]
            0 <= w < details.len() && details[w] == item && details[w].text_at("ccy"@) == Some(ccy)
                && forall|j: int| 0 <= j < w ==> (#[trigger] details[j]).text_at("ccy"@) != Some(ccy);
        if 0 <= i < details.len() && details[i].text_at("ccy"@) == Some(ccy) && (forall|j: int|
            0 <= j < i ==> (#[trigger] details[j]).text_at("ccy"@) != Some(ccy)) {
            assert(w == i);
        }
    }
}

/// Without entries or details there is no balance.
pub proof fn law_no_details_no_balance(answer: JsonView, ccy: Seq<char>)
    requires
        answer.items_at("data"@) matches Some(data) ==> data.len() == 0 || data[0].items_at(
            "details"@,
        ) is None,
    ensures
        balance_of(answer, ccy) == 0,
{
}

/// An answer counts as done exactly where its code is the text `0`; the error of any other
/// shows the code, a blank and the message.
pub proof fn law_answer_is_judged_by_its_code(answer: JsonView, code: JsonView, msg: JsonView)
    ensures
        is_accepted(answer) <==> answer.field("code"@) == Some(JsonView::Text("0"@)),
        answer.field("code"@) == Some(code) && answer.field("msg"@) == Some(msg) && !(code is Number)
            && !(msg is Number) ==> refusal(answer) == json_text(code) + seq![' '] + json_text(msg),
        answer.field("code"@) is None && answer.field("msg"@) is None ==> refusal(answer)
            == json_text(JsonView::Null) + seq![' '] + json_text(JsonView::Null),
        code matches JsonView::Number(_, t) ==> answer.field("code"@) == Some(code) && answer.field(
            "msg"@,
        ) is None ==> refusal(answer) == t + seq![' '] + json_text(JsonView::Null),
{
    assert(forall|a: Seq<char>, b: Seq<char>| #[trigger] (a.push(' ') + b) =~= a + seq![' '] + b);
}

/// That the position mode cannot change now is recognised by the code `51059` anywhere in
/// the message.
pub proof fn law_mode_is_settled_by_code(e: RestError, before: Seq<char>, behind: Seq<char>)
    ensures
        e.message@ == before + "51059"@ + behind ==> mode_is_settled(e),
        mode_is_settled(e) ==> e.message@.len() >= 5,
{
    reveal_strlit("51059");
    assert("51059"@.len() == 5);
    if e.message@ == before + "51059"@ + behind {
        let i = before.len() as int;
        assert(e.message@.subrange(i, i + 5) =~= "51059"@);
        assert(stands_at(e.message@, "51059"@, i));
    }
    if mode_is_settled(e) {
        let i = choose|i: int| #[trigger] stands_at(e.message@, "51059"@, i);
    }
}

/// The session is reached at the address with the scheme of web sockets: `wss` in place of
/// `https`, `ws` in place of `http`.
pub proof fn law_session_has_its_scheme(host: Seq<char>)
    requires
        forall|i: int| 0 <= i < host.len() ==> #[trigger] host[i] != ':',
    ensures
        session_url("https://"@ + host) == "wss://"@ + host + "/ws/v5/private"@,
        session_url("http://"@ + host) == "ws://"@ + host + "/ws/v5/private"@,
{
    reveal_strlit("https://");
    reveal_strlit("http://");
    reveal_strlit("wss://");
    let secure = "https://"@;
    let plain = "http://"@;
    assert(secure.len() == 8 && secure[5] == ':');
    assert(plain.len() == 7 && plain[4] == ':');
    lemma_no_pattern(host, secure, "wss://"@, 5);
    lemma_no_pattern(host, plain, "ws://"@, 4);
    law_replaced_text(host, secure, "wss://"@);
    law_replaced_text(host, plain, "ws://"@);
    let w = "wss://"@;
    assert(w.len() == 6 && w[0] == 'w' && w[1] == 's' && w[2] == 's' && w[3] == ':' && w[4] == '/'
        && w[5] == '/');
    assert(plain[0] == 'h' && plain[1] == 't');
    assert(secure[0] == 'h' && secure[4] == 's' && plain[4] == ':');
    lemma_prefix_without_pattern(w, host, plain, "ws://"@);
    // An address with the plain scheme holds no secure one.
    let address = plain + host;
    lemma_plain_has_no_secure(address, host);
}

/// A text without the character of a pattern stays as it is.
proof fn lemma_no_pattern(s: Seq<char>, from: Seq<char>, to: Seq<char>, at: int)
    requires
        0 <= at < from.len(),
        forall|i: int| 0 <= i < s.len() ==> #[trigger] s[i] != from[at],
    ensures
        replaced(s, from, to) == s,
    decreases s.len(),
{
    if s.len() >= from.len() {
        if s.take(from.len() as int) == from {
            assert(s[at] == from[at]);
        }
        assert forall|i: int| 0 <= i < s.skip(1).len() implies #[trigger] s.skip(1)[i] != from[at] by {
            assert(s.skip(1)[i] == s[i + 1]);
        }
        lemma_no_pattern(s.skip(1), from, to, at);
        assert(seq![s[0]] + s.skip(1) == s);
    }
}

/// Behind a part in which the pattern cannot begin, the text is replaced on its own.
proof fn lemma_prefix_without_pattern(
    part: Seq<char>,
    s: Seq<char>,
    from: Seq<char>,
    to: Seq<char>,
)
    requires
        from.len() > 0,
        replaced(s, from, to) == s,
        forall|i: int| 0 <= i < part.len() ==> #[trigger] part[i] != from[0],
    ensures
        replaced(part + s, from, to) == part + s,
    decreases part.len(),
{
    if part.len() > 0 {
        let all = part + s;
        assert(all[0] == part[0]);
        assert(all.skip(1) == part.skip(1) + s);
        assert forall|i: int| 0 <= i < part.skip(1).len() implies #[trigger] part.skip(1)[i]
            != from[0] by {
            assert(part.skip(1)[i] == part[i + 1]);
        }
        lemma_prefix_without_pattern(part.skip(1), s, from, to);
        if all.len() >= from.len() && all.take(from.len() as int) == from {
            assert(all[0] == from[0]);
        }
        assert(seq![all[0]] + all.skip(1) == all);
    } else {
        assert(part + s == s);
    }
}

/// An address with the plain scheme holds no secure one.
proof fn lemma_plain_has_no_secure(address: Seq<char>, host: Seq<char>)
    requires
        address == "http://"@ + host,
        replaced(host, "https://"@, "wss://"@) == host,
    ensures
        replaced(address, "https://"@, "wss://"@) == address,
{
    reveal_strlit("https://");
    reveal_strlit("http://");
    let from = "https://"@;
    let plain = "http://"@;
    assert(from.len() == 8 && from[0] == 'h' && from[4] == 's');
    assert(plain.len() == 7 && plain[0] == 'h' && plain[1] == 't' && plain[2] == 't' && plain[3]
        == 'p' && plain[4] == ':' && plain[5] == '/' && plain[6] == '/');
    let tail = plain.skip(1);
    assert forall|i: int| 0 <= i < tail.len() implies #[trigger] tail[i] != from[0] by {
        assert(tail[i] == plain[i + 1]);
    }
    lemma_prefix_without_pattern(tail, host, from, "wss://"@);
    assert(address.skip(1) == tail + host);
    if address.len() >= 8 && address.take(8) == from {
        assert(address[4] == from[4]);
        assert(address[4] == plain[4]);
    }
    assert(seq![address[0]] + address.skip(1) == address);
}

}
