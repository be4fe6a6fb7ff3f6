//! The exchange of the options: signed requests, and what its answers say.
use crate::amount::{amount_of, amount_or_zero, in_range, magnitude, parse_or_zero, says_nan};
use crate::decimal::{fixed_text, fixed_to_text, has_decimals, law_fixed_text_is_nearest};
use crate::json::{
    document_or_empty, find_with, first_with, law_first_item_with_a_text, parse_or_empty, views, Json,
    JsonView,
};
use crate::options::{
    ask_in, listed, options_for, pick_options, quotes_of, read_ask, read_quotes, OptionsInfo,
};
use crate::rest::{join, join_spaced, refusal, refuse, spaced, Method, RestError};
use crate::signing::{hex_signature, sign_hex};
use crate::text::{
    digits_value, first_position, lemma_first_position, split, split_on, ten_to, texts, trim_trailing,
    without_trailing,
};
use vstd::prelude::*;

verus! {

/// The least size of an option that is bought: 0.01.
pub const MIN_OPTION: i128 = 100_000_000;

/// The account at the exchange, and where the exchange is reached.
pub struct BinanceAdapter {
    api_key: String,
    secret: String,
    base_url: String,
}

/// The account at the exchange, in texts.
pub struct BinanceView {
    pub api_key: Seq<char>,
    pub secret: Seq<char>,
    pub base_url: Seq<char>,
}

impl View for BinanceAdapter {
    type V = BinanceView;

    closed spec fn view(&self) -> BinanceView {
        BinanceView {
            api_key: self.api_key@,
            secret: self.secret@,
            base_url: self.base_url@,
        }
    }
}

/// A request that is ready to be sent.
pub struct UrlRequest {
    pub method: Method,
    pub url: String,
}

/// The parameters of a request, in the order in which they are written.
pub struct Params {
    pairs: Vec<(String, String)>,
}

/// A list of parameters in texts.
pub open spec fn pair_texts(pairs: Seq<(String, String)>) -> Seq<(Seq<char>, Seq<char>)> {
    Seq::new(pairs.len(), |i: int| (pairs[i].0@, pairs[i].1@))
}

impl View for Params {
    type V = Seq<(Seq<char>, Seq<char>)>;

    closed spec fn view(&self) -> Seq<(Seq<char>, Seq<char>)> {
        pair_texts(self.pairs@)
    }
}

/// One parameter in a query.
pub open spec fn pair_text(pair: (Seq<char>, Seq<char>)) -> Seq<char> {
    pair.0.push('=') + pair.1
}

/// The parameters in a query, with `&` between them.
pub open spec fn query_text(pairs: Seq<(Seq<char>, Seq<char>)>) -> Seq<char>
    decreases pairs.len(),
{
    if pairs.len() == 0 {
        Seq::empty()
    } else if pairs.len() == 1 {
        pair_text(pairs[0])
    } else {
        query_text(pairs.drop_last()).push('&') + pair_text(pairs.last())
    }
}

impl Params {
    /// No parameters.
    pub fn new() -> (r: Params)
        ensures
            r@ == Seq::<(Seq<char>, Seq<char>)>::empty(),
    {
        let r = Params { pairs: Vec::new() };
        assert(r@ == Seq::<(Seq<char>, Seq<char>)>::empty());
        r
    }

    /// The parameters with one more behind them.
    pub fn with(self, key: &str, value: &str) -> (r: Params)
        ensures
            r@ == self@.push((key@, value@)),
    {
        let ghost before = self@;
        let mut pairs = self.pairs;
        pairs.push((key.to_owned(), value.to_owned()));
        let r = Params { pairs };
        assert(r@ == before.push((key@, value@)));
        r
    }

    /// Writes the parameters in a query.
    pub fn query(&self) -> (text: String)
        ensures
            text@ == query_text(self@),
    {
        let ghost all = self@;
        let mut text = String::new();
        let mut i: usize = 0;
        while i < self.pairs.len()
            invariant
                i <= self.pairs@.len(),
                all == pair_texts(self.pairs@),
                text@ == query_text(all.take(i as int)),
            decreases self.pairs@.len() - i,
        {
            let ghost written = text@;
            if i > 0 {
                text.push('&');
            }
            let ghost start = text@;
            text.append(self.pairs[i].0.as_str());
            text.push('=');
            text.append(self.pairs[i].1.as_str());
            assert(text@ == start + pair_text(all[i as int]));
            i = i + 1;
            assert(all.take(i as int).drop_last() == all.take(i - 1));
            assert(all.take(i as int).last() == all[i - 1]);
            if i == 1 {
                assert(start == Seq::<char>::empty());
                assert(text@ == pair_text(all[0]));
            }
        }
        assert(all.take(i as int) == all);
        text
    }
}

/// The parameters of a signed request: those given, the time, and how long it holds.
pub open spec fn stamped(pairs: Seq<(Seq<char>, Seq<char>)>, stamp: Seq<char>) -> Seq<
    (Seq<char>, Seq<char>),
> {
    pairs.push(("timestamp"@, stamp)).push(("recvWindow"@, "5000"@))
}

/// The address of a request that anyone can make.
pub open spec fn public_url(
    bn: BinanceView,
    path: Seq<char>,
    pairs: Seq<(Seq<char>, Seq<char>)>,
) -> Seq<char> {
    let query = query_text(pairs);
    if query.len() == 0 {
        bn.base_url + path
    } else {
        (bn.base_url + path).push('?') + query
    }
}

/// The address of a request that is made, and signed, at the time `stamp`.
pub open spec fn private_url(
    bn: BinanceView,
    path: Seq<char>,
    pairs: Seq<(Seq<char>, Seq<char>)>,
    stamp: Seq<char>,
) -> Seq<char> {
    let query = query_text(stamped(pairs, stamp));
    (bn.base_url + path).push('?') + query + "&signature="@ + hex_signature(bn.secret, query)
}

/// The parameter that names a symbol, where there is one.
pub open spec fn symbol_pairs(symbol: Option<&str>) -> Seq<(Seq<char>, Seq<char>)> {
    match symbol {
        Some(s) => seq![("symbol"@, s@)],
        None => Seq::empty(),
    }
}

/// Makes the parameter that names a symbol, where there is one.
fn symbol_params(symbol: Option<&str>) -> (r: Params)
    ensures
        r@ == symbol_pairs(symbol),
{
    match symbol {
        Some(s) => {
            let r = Params::new().with("symbol", s);
            assert(r@ == seq![("symbol"@, s@)]);
            r
        },
        None => Params::new(),
    }
}

/// Does the answer carry an error?
pub open spec fn is_refused(answer: JsonView) -> bool {
    match answer.field("code"@) {
        Some(code) => match code.integer() {
            Some(i) => i != 0,
            None => false,
        },
        None => false,
    }
}

/// Takes the answer to a request, or the error that it carries.
pub fn check_answer(answer: Json) -> (r: Result<Json, RestError>)
    ensures
        r is Ok <==> !is_refused(answer@),
        r matches Ok(j) ==> j@ == answer@,
        r matches Err(e) ==> e.message@ == refusal(answer@),
{
    let refused = match answer.get("code") {
        Some(code) => match code.as_i64() {
            Some(i) => i != 0,
            None => false,
        },
        None => false,
    };
    if refused {
        Err(refuse(&answer))
    } else {
        Ok(answer)
    }
}

/// Reads the answer to a request, or the error that the status, or the answer, gives.
pub fn read_answer(success: bool, status: &str, text: &str) -> (r: Result<Json, RestError>)
    ensures
        r is Ok <==> success && !is_refused(document_or_empty(text@)),
        r matches Ok(j) ==> j@ == document_or_empty(text@),
        r matches Err(e) ==> e.message@ == if success {
            refusal(document_or_empty(text@))
        } else {
            spaced(status@, text@)
        },
{
    if !success {
        return Err(RestError { message: join_spaced(status, text) });
    }
    check_answer(parse_or_empty(text))
}

/// The text that says how much of an option is held.
pub open spec fn held_text(position: JsonView) -> Option<Seq<char>> {
    match position.text_at("quantity"@) {
        Some(t) => Some(t),
        None => match position.text_at("position"@) {
            Some(t) => Some(t),
            None => position.text_at("positionAmt"@),
        },
    }
}

/// How much of an option is held.
pub open spec fn held(position: JsonView) -> int {
    match held_text(position) {
        Some(t) => magnitude(amount_or_zero(t)),
        None => 0,
    }
}

/// How much of an option an answer says is held: in the first position of a list that
/// names it, or in a single position.
pub open spec fn position_of(answer: JsonView, opt_symbol: Seq<char>) -> int {
    match answer.items() {
        Some(items) => match first_with(items, "symbol"@, opt_symbol) {
            Some(position) => held(position),
            None => 0,
        },
        None => if answer.text_at("symbol"@) == Some(opt_symbol) {
            held(answer)
        } else {
            0
        },
    }
}

/// Reads how much of an option is held.
fn read_held(position: &Json) -> (r: i128)
    ensures
        r == held(position@),
        0 <= r,
        in_range(r as int),
{
    let text = match position.text_at("quantity") {
        Some(t) => Some(t),
        None => match position.text_at("position") {
            Some(t) => Some(t),
            None => position.text_at("positionAmt"),
        },
    };
    let amount = match text {
        Some(t) => parse_or_zero(t),
        None => 0,
    };
    if amount < 0 {
        -amount
    } else {
        amount
    }
}

/// Reads how much of an option an answer says is held.
pub fn read_option_position(answer: &Json, opt_symbol: &str) -> (r: i128)
    ensures
        r == position_of(answer@, opt_symbol@),
        0 <= r,
        in_range(r as int),
{
    match answer.as_array() {
        Some(items) => match find_with(items, "symbol", opt_symbol) {
            Some(position) => read_held(position),
            None => 0,
        },
        None => if answer.has_text("symbol", opt_symbol) {
            read_held(answer)
        } else {
            0
        },
    }
}

/// The price at which the ticker of one option offers it: zero where it does not, and
/// `None` where it says that the price is not a number.
pub open spec fn offered(ticker: JsonView) -> Option<int> {
    match ticker.items() {
        Some(items) => if items.len() == 0 {
            Some(0)
        } else {
            ask_in(items[0])
        },
        None => ask_in(ticker),
    }
}

/// Reads the price at which the ticker of one option offers it.
fn read_offer(ticker: &Json) -> (ask: Option<i128>)
    ensures
        ask is Some <==> offered(ticker@) is Some,
        ask matches Some(a) ==> offered(ticker@) == Some(a as int) && in_range(a as int),
{
    match ticker.as_array() {
        Some(items) => if items.len() == 0 {
            Some(0)
        } else {
            assert(views(items@)[0] == items@[0]@);
            read_ask(&items[0])
        },
        None => read_ask(ticker),
    }
}

/// Is nothing to be bought?
pub open spec fn buys_nothing(opt_symbol: Seq<char>, size: int) -> bool {
    opt_symbol.len() == 0 || size < MIN_OPTION
}

/// The price of an order in text: 5 % above the offer.
pub open spec fn order_price(ask: Option<int>) -> Seq<char> {
    match ask {
        Some(a) => fixed_text(105 * a, 12, 2),
        None => "NaN"@,
    }
}

/// The parameters of an order for an option: up to 5 % above the price at which it is
/// offered, at once or not at all.
pub open spec fn order_pairs(opt_symbol: Seq<char>, size: int, ask: Option<int>) -> Seq<
    (Seq<char>, Seq<char>),
> {
    seq![
        ("symbol"@, opt_symbol),
        ("side"@, "BUY"@),
        ("type"@, "LIMIT"@),
        ("quantity"@, fixed_text(size, 10, 2)),
        ("price"@, order_price(ask)),
        ("timeInForce"@, "IOC"@),
    ]
}

/// The part of a symbol that names what is traded.
pub open spec fn base_of(symbol: Seq<char>) -> Seq<char> {
    split(symbol, '-')[0]
}

impl BinanceAdapter {
    /// An account. The address loses the slashes at its end.
    pub fn new(api_key: &str, secret: &str, base_url: &str) -> (r: BinanceAdapter)
        ensures
            r@ == (BinanceView {
                api_key: api_key@,
                secret: secret@,
                base_url: without_trailing(base_url@, '/'),
            }),
    {
        BinanceAdapter {
            api_key: api_key.to_owned(),
            secret: secret.to_owned(),
            base_url: trim_trailing(base_url, '/'),
        }
    }

    /// The key that each request names the account by.
    pub fn api_key(&self) -> (key: &str)
        ensures
            key@ == self@.api_key,
    {
        self.api_key.as_str()
    }

    /// Signs a query.
    pub fn sign(&self, query: &str) -> (s: String)
        ensures
            s@ == hex_signature(self@.secret, query@),
    {
        sign_hex(self.secret.as_str(), query)
    }

    /// Makes a request that anyone can make.
    pub fn public_request(&self, method: Method, path: &str, params: Params) -> (r: UrlRequest)
        ensures
            r.method == method,
            r.url@ == public_url(self@, path@, params@),
    {
        let mut url = join(self.base_url.as_str(), path);
        let query = params.query();
        if !query.as_str().is_empty() {
            url.push('?');
            url.append(query.as_str());
        }
        UrlRequest { method, url }
    }

    /// Makes a request that is signed at the time `stamp`.
    pub fn private_request(
        &self,
        method: Method,
        path: &str,
        params: Params,
        stamp: &str,
    ) -> (r: UrlRequest)
        ensures
            r.method == method,
            r.url@ == private_url(self@, path@, params@, stamp@),
    {
        let query = params.with("timestamp", stamp).with("recvWindow", "5000").query();
        let signature = self.sign(query.as_str());
        let mut url = join(self.base_url.as_str(), path);
        url.push('?');
        url.append(query.as_str());
        url.append("&signature=");
        url.append(signature.as_str());
        UrlRequest { method, url }
    }

    /// Asks for the rules of the exchange.
    pub fn get_exchange_info(&self) -> (r: UrlRequest)
        ensures
            r.method == Method::Get,
            r.url@ == public_url(self@, "/eapi/v1/exchangeInfo"@, Seq::empty()),
    {
        self.public_request(Method::Get, "/eapi/v1/exchangeInfo", Params::new())
    }

    /// Asks for the account.
    pub fn get_account(&self, stamp: &str) -> (r: UrlRequest)
        ensures
            r.method == Method::Get,
            r.url@ == private_url(self@, "/eapi/v1/account"@, Seq::empty(), stamp@),
    {
        self.private_request(Method::Get, "/eapi/v1/account", Params::new(), stamp)
    }

    /// Asks for the positions, in one symbol or in all.
    pub fn get_positions(&self, symbol: Option<&str>, stamp: &str) -> (r: UrlRequest)
        ensures
            r.method == Method::Get,
            r.url@ == private_url(self@, "/eapi/v1/position"@, symbol_pairs(symbol), stamp@),
    {
        self.private_request(Method::Get, "/eapi/v1/position", symbol_params(symbol), stamp)
    }

    /// Asks for the open orders, in one symbol or in all.
    pub fn get_open_orders(&self, symbol: Option<&str>, stamp: &str) -> (r: UrlRequest)
        ensures
            r.method == Method::Get,
            r.url@ == private_url(self@, "/eapi/v1/openOrders"@, symbol_pairs(symbol), stamp@),
    {
        self.private_request(Method::Get, "/eapi/v1/openOrders", symbol_params(symbol), stamp)
    }

    /// Asks for the tickers, of one symbol or of all.
    pub fn list_tickers(&self, symbol: Option<&str>) -> (r: UrlRequest)
        ensures
            r.method == Method::Get,
            r.url@ == public_url(self@, "/eapi/v1/ticker"@, symbol_pairs(symbol)),
    {
        self.public_request(Method::Get, "/eapi/v1/ticker", symbol_params(symbol))
    }

    /// Asks for the marks of all options.
    pub fn list_marks(&self) -> (r: UrlRequest)
        ensures
            r.method == Method::Get,
            r.url@ == public_url(self@, "/eapi/v1/mark"@, Seq::empty()),
    {
        self.public_request(Method::Get, "/eapi/v1/mark", Params::new())
    }

    /// Picks the options that bound a grid in `symbol` around the price `s0`, from the
    /// answers about tickers and marks.
    pub fn get_options_info(
        symbol: &str,
        s0: i128,
        target_delta: i128,
        ticker: &Json,
        mark: &Json,
        now: i64,
    ) -> (r: OptionsInfo)
        requires
            in_range(s0 as int),
            in_range(target_delta as int),
        ensures
            r@ == options_for(
                quotes_of(listed(mark@), base_of(symbol@), listed(ticker@)),
                s0 as int,
                target_delta as int,
                now as int,
            ),
            in_range(r.p_be_down as int),
            in_range(r.p_be_up as int),
    {
        let parts = split_on(symbol, '-');
        assert(texts(parts@)[0] == parts@[0]@);
        let quotes = read_quotes(ticker, mark, parts[0].as_str());
        pick_options(&quotes, s0, target_delta, now)
    }

    /// Asks how much of an option is held. Of no option nothing is held: that needs no
    /// question.
    pub fn get_option_position(&self, opt_symbol: &str, stamp: &str) -> (r: Option<UrlRequest>)
        ensures
            r is None <==> opt_symbol@.len() == 0,
            r matches Some(q) ==> q.method == Method::Get && q.url@ == private_url(
                self@,
                "/eapi/v1/position"@,
                seq![("symbol"@, opt_symbol@)],
                stamp@,
            ),
    {
        if opt_symbol.is_empty() {
            None
        } else {
            Some(self.get_positions(Some(opt_symbol), stamp))
        }
    }

    /// Asks for the ticker of an option that is to be bought. Where nothing is to be
    /// bought, that needs no question.
    pub fn buy_option(&self, opt_symbol: &str, size: i128) -> (r: Option<UrlRequest>)
        ensures
            r is None <==> buys_nothing(opt_symbol@, size as int),
            r matches Some(q) ==> q.method == Method::Get && q.url@ == public_url(
                self@,
                "/eapi/v1/ticker"@,
                seq![("symbol"@, opt_symbol@)],
            ),
    {
        if opt_symbol.is_empty() || size < MIN_OPTION {
            None
        } else {
            Some(self.list_tickers(Some(opt_symbol)))
        }
    }

    /// Orders an option at the price that its ticker gives, or says that it gives none.
    pub fn order_option(&self, opt_symbol: &str, size: i128, ticker: &Json, stamp: &str) -> (r:
        Result<UrlRequest, RestError>)
        requires
            size > i128::MIN,
        ensures
            r is Ok <==> (offered(ticker@) matches Some(ask) ==> ask > 0),
            r matches Ok(q) ==> q.method == Method::Post && q.url@ == private_url(
                self@,
                "/eapi/v1/order"@,
                order_pairs(opt_symbol@, size as int, offered(ticker@)),
                stamp@,
            ),
            r matches Err(e) ==> e.message@ == "Invalid ask price"@,
    {
        let price = match read_offer(ticker) {
            Some(ask) => if ask <= 0 {
                return Err(RestError { message: "Invalid ask price".to_owned() });
            } else {
                fixed_to_text(105 * ask, 12, 2)
            },
            None => "NaN".to_owned(),
        };
        let quantity = fixed_to_text(size, 10, 2);
        let params = Params::new().with("symbol", opt_symbol).with("side", "BUY").with(
            "type",
            "LIMIT",
        ).with("quantity", quantity.as_str()).with("price", price.as_str()).with(
            "timeInForce",
            "IOC",
        );
        assert(params@ == order_pairs(opt_symbol@, size as int, offered(ticker@)));
        Ok(self.private_request(Method::Post, "/eapi/v1/order", params, stamp))
    }
}

/// Parameters are written as key, `=` and value, with `&` between them, in order.
pub proof fn law_query_lists_the_parameters(
    pairs: Seq<(Seq<char>, Seq<char>)>,
    key: Seq<char>,
    value: Seq<char>,
)
    ensures
        query_text(Seq::empty()).len() == 0,
        query_text(seq![(key, value)]) == key + seq!['='] + value,
        pairs.len() > 0 ==> query_text(pairs.push((key, value))) == query_text(pairs) + seq!['&']
            + key + seq!['='] + value,
{
    assert(pairs.push((key, value)).drop_last() == pairs);
    assert(pairs.push((key, value)).last() == (key, value));
    assert(key.push('=') + value =~= key + seq!['='] + value);
    if pairs.len() > 0 {
        assert(query_text(pairs).push('&') + (key.push('=') + value) =~= query_text(pairs)
            + seq!['&'] + key + seq!['='] + value);
    }
}

/// A signed request ends its query with the time and the window of five seconds, and
/// behind it carries the signature of exactly that query under the secret.
pub proof fn law_private_request_is_signed(
    bn: BinanceView,
    path: Seq<char>,
    pairs: Seq<(Seq<char>, Seq<char>)>,
    stamp: Seq<char>,
)
    ensures
        ({
            let query = query_text(stamped(pairs, stamp));
            &&& private_url(bn, path, pairs, stamp) == bn.base_url + path + seq!['?'] + query
                + "&signature="@ + hex_signature(bn.secret, query)
            &&& stamped(pairs, stamp).len() == pairs.len() + 2
            &&& stamped(pairs, stamp)[pairs.len() as int] == ("timestamp"@, stamp)
            &&& stamped(pairs, stamp)[(pairs.len() + 1) as int] == ("recvWindow"@, "5000"@)
            &&& forall|i: int|
                0 <= i < pairs.len() ==> #[trigger] stamped(pairs, stamp)[i] == pairs[i]
        }),
{
    assert((bn.base_url + path).push('?') =~= bn.base_url + path + seq!['?']);
}

/// A request that anyone can make carries its query, if any, and nothing else.
pub proof fn law_public_request_carries_its_query(
    bn: BinanceView,
    path: Seq<char>,
    pairs: Seq<(Seq<char>, Seq<char>)>,
)
    ensures
        pairs.len() == 0 ==> public_url(bn, path, pairs) == bn.base_url + path,
        pairs.len() > 0 ==> public_url(bn, path, pairs) == bn.base_url + path + seq!['?']
            + query_text(pairs),
{
    if pairs.len() > 0 {
        let front = pairs.drop_last();
        assert(front.push(pairs.last()) == pairs);
        law_query_lists_the_parameters(front, pairs.last().0, pairs.last().1);
        if front.len() == 0 {
            assert(pairs =~= seq![(pairs.last().0, pairs.last().1)]);
        }
        assert(query_text(pairs).len() > 0);
    }
    assert((bn.base_url + path).push('?') =~= bn.base_url + path + seq!['?']);
}

/// An answer is refused exactly where it has a code that is a whole number other than
/// zero.
pub proof fn law_refused_by_a_code(answer: JsonView)
    ensures
        is_refused(answer) <==> (answer.field("code"@) matches Some(JsonView::Number(Some(i), _))
            && i != 0),
{
}

/// What is held of an option: the quantity, or else the position, or else the position
/// amount, without its sign; nothing where there is none of them.
pub proof fn law_holding_without_its_sign(position: JsonView)
    ensures
        held(position) >= 0,
        ({
            let text = if position.text_at("quantity"@) is Some {
                position.text_at("quantity"@)
            } else if position.text_at("position"@) is Some {
                position.text_at("position"@)
            } else {
                position.text_at("positionAmt"@)
            };
            &&& text is None ==> held(position) == 0
            &&& text matches Some(t) ==> match amount_of(t) {
                Some(x) => held(position) == x || held(position) == -x,
                None => held(position) == 0,
            }
        }),
{
}

/// The position in an option is that of the first entry with its symbol, in a list, or of
/// the answer itself; nothing where the symbol is not named.
pub proof fn law_position_is_of_the_option(answer: JsonView, symbol: Seq<char>, i: int)
    ensures
        answer.items() matches Some(items) ==> {
            &&& 0 <= i < items.len() && items[i].text_at("symbol"@) == Some(symbol) && (forall|j: int|
                0 <= j < i ==> (#[trigger] items[j]).text_at("symbol"@) != Some(symbol))
                ==> position_of(answer, symbol) == held(items[i])
            &&& (forall|j: int|
                0 <= j < items.len() ==> (#[trigger] items[j]).text_at("symbol"@) != Some(symbol))
                ==> position_of(answer, symbol) == 0
        },
        answer.items() is None && answer.text_at("symbol"@) == Some(symbol) ==> position_of(
            answer,
            symbol,
        ) == held(answer),
        answer.items() is None && answer.text_at("symbol"@) != Some(symbol) ==> position_of(
            answer,
            symbol,
        ) == 0,
{
    if let Some(items) = answer.items() {
        law_first_item_with_a_text(items, "symbol"@, symbol);
        if let Some(item) = first_with(items, "symbol"@, symbol) {
            let w = choose|w: int| #![trigger items[w]]
                0 <= w < items.len() && items[w] == item && items[w].text_at("symbol"@) == Some(
                    symbol,
                ) && forall|j: int|
                    0 <= j < w ==> (#[trigger] items[j]).text_at("symbol"@) != Some(symbol);
            if 0 <= i < items.len() && items[i].text_at("symbol"@) == Some(symbol) && (forall|j: int|
                0 <= j < i ==> (#[trigger] items[j]).text_at("symbol"@) != Some(symbol)) {
                assert(w == i);
            }
        }
    }
}

/// The offer is that of the first ticker of a list, or of the ticker itself.
pub proof fn law_offer_is_of_the_ticker(ticker: JsonView)
    ensures
        ({
            let one = match ticker {
                JsonView::List(items) => items[0],
                other => other,
            };
            let some = ticker matches JsonView::List(items) ==> items.len() > 0;
            &&& !some ==> offered(ticker) == Some(0int)
            &&& some ==> match one.text_at("askPrice"@) {
                None => offered(ticker) == Some(0int),
                Some(t) => if says_nan(t) {
                    offered(ticker) is None
                } else if amount_of(t) is Some {
                    offered(ticker) == amount_of(t)
                } else {
                    offered(ticker) == Some(0int)
                },
            }
        }),
{
}

/// An order for an option: a limited purchase, at once or not at all, of the size to two
/// decimals, at 5 % above the offer, to two decimals.
pub proof fn law_option_order_says_size_and_price(symbol: Seq<char>, size: int, ask: int)
    requires
        size >= 0,
        ask > 0,
    ensures
        ({
            let pairs = order_pairs(symbol, size, Some(ask));
            let quantity = pairs[3].1;
            let price = pairs[4].1;
            &&& pairs.len() == 6
            &&& pairs[0] == ("symbol"@, symbol)
            &&& pairs[1] == ("side"@, "BUY"@)
            &&& pairs[2] == ("type"@, "LIMIT"@)
            &&& pairs[3].0 == "quantity"@
            &&& pairs[4].0 == "price"@
            &&& pairs[5] == ("timeInForce"@, "IOC"@)
            &&& has_decimals(quantity, 2)
            &&& has_decimals(price, 2)
            &&& -100_000_000 <= 2 * (100_000_000 * hundredths(quantity) - size) <= 100_000_000
            &&& -10_000_000_000 <= 2 * (10_000_000_000 * hundredths(price) - 105 * ask)
                <= 10_000_000_000
        }),
{
    law_fixed_text_is_nearest(size, 10, 2);
    law_fixed_text_is_nearest(105 * ask, 12, 2);
    assert(ten_to(8) == 100_000_000 && ten_to(10) == 10_000_000_000) by {
        reveal_with_fuel(ten_to, 11);
    }
}

/// The hundredths that a text with two decimals writes.
pub open spec fn hundredths(s: Seq<char>) -> int {
    digits_value(s.take(s.len() - 3) + s.skip(s.len() - 2)) as int
}

/// Nothing is bought exactly where no option is named or less than a hundredth is wanted.
pub proof fn law_nothing_is_bought(symbol: Seq<char>, size: int)
    ensures
        buys_nothing(symbol, size) <==> symbol.len() == 0 || size < 100_000_000,
{
}

/// The base of a symbol is what stands before its first hyphen, or all of it.
pub proof fn law_base_of_a_symbol(base: Seq<char>, rest: Seq<char>)
    requires
        forall|i: int| 0 <= i < base.len() ==> #[trigger] base[i] != '-',
    ensures
        base_of(base + seq!['-'] + rest) == base,
        base_of(base) == base,
{
    let s = base + seq!['-'] + rest;
    lemma_first_position(s, '-');
    lemma_first_position(base, '-');
    let p = first_position(s, '-') as int;
    assert(s[base.len() as int] == '-');
    assert forall|i: int| 0 <= i < base.len() implies s[i] != '-' by {
        assert(s[i] == base[i]);
    }
    assert(p == base.len());
    assert(s.take(p) == base);
}

/// A request for one symbol names it, and one for all names none.
pub proof fn law_symbol_is_named(symbol: &str)
    ensures
        symbol_pairs(Some(symbol)).len() == 1,
        symbol_pairs(Some(symbol))[0] == ("symbol"@, symbol@),
        symbol_pairs(None).len() == 0,
{
}

}
