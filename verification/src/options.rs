//! Options: what the market quotes, and which two of them bound the grid.
use crate::amount::{
    amount_of, amount_or_zero, distance, in_range, is_infinity, is_nan, lemma_round_div, multiply,
    parse_or_zero, product, says_infinity, says_nan, LIMIT, SCALE,
};
use crate::json::{views, Json, JsonView};
use crate::text::{same_text, split, split_on, starts_with, texts};
use vstd::prelude::*;

verus! {

/// An option is bought only where it has at least this many seconds left: half a day.
pub const MIN_SECONDS: i128 = 43_200;

/// The rise from the price to the upper bound where no call is found: 1.1.
pub const RISE: i128 = 11_000_000_000;

/// The fall from the price to the lower bound where no put is found: 0.9.
pub const FALL: i128 = 9_000_000_000;

/// The right that an option gives.
#[derive(Clone, Copy, Debug, PartialEq, Eq, Structural)]
pub enum OptionKind {
    Call,
    Put,
    Other,
}

/// What the market quotes for an option.
pub struct Quote {
    pub symbol: String,
    pub kind: OptionKind,
    /// The second at which the option expires.
    pub expiry: i64,
    pub strike: i128,
    /// The price at which the option is offered, or zero; `None` where it is not a number.
    pub ask: Option<i128>,
    /// The delta of the option; `None` where it is not finite.
    pub delta: Option<i128>,
}

/// A quote in numbers.
pub struct QuoteView {
    pub symbol: Seq<char>,
    pub kind: OptionKind,
    pub expiry: int,
    pub strike: int,
    pub ask: Option<int>,
    pub delta: Option<int>,
}

impl View for Quote {
    type V = QuoteView;

    open spec fn view(&self) -> QuoteView {
        QuoteView {
            symbol: self.symbol@,
            kind: self.kind,
            expiry: self.expiry as int,
            strike: self.strike as int,
            ask: match self.ask {
                Some(a) => Some(a as int),
                None => None,
            },
            delta: match self.delta {
                Some(d) => Some(d as int),
                None => None,
            },
        }
    }
}

impl Quote {
    /// The amounts are within the limits.
    pub open spec fn wf(self) -> bool {
        &&& in_range(self.strike as int)
        &&& self.ask matches Some(a) ==> in_range(a as int)
        &&& self.delta matches Some(d) ==> in_range(d as int)
    }
}

/// A list of quotes in numbers.
pub open spec fn quote_views(quotes: Seq<Quote>) -> Seq<QuoteView> {
    Seq::new(quotes.len(), |i: int| quotes[i]@)
}

/// The amounts of all quotes are within the limits.
pub open spec fn quotes_wf(quotes: Seq<Quote>) -> bool {
    forall|i: int| 0 <= i < quotes.len() ==> (#[trigger] quotes[i]).wf()
}

/// The second, counted from 1970 in UTC, at a time of the day that a text names, as
/// `chrono::NaiveDate::parse_from_str` reads it; `None` where it reads no day or there is
/// no such time.
pub uninterp spec fn utc_timestamp(
    date: Seq<char>,
    format: Seq<char>,
    hour: u32,
    min: u32,
    sec: u32,
) -> Option<i64>;

/// `chrono::NaiveDate::parse_from_str`, then `and_hms_opt`, `and_utc` and `timestamp` of
/// that crate: the second at a time of the day that the text names. Which day a given
/// text names is left to `utc_timestamp`; beyond whole days, the second is the time of
/// the day in seconds. The format is one of plain dates: `parse_from_str` can overflow on
/// years that other formats read.
#[verifier::external_body]
pub(crate) fn utc_second(date: &str, format: &str, hour: u32, min: u32, sec: u32) -> (r: Option<i64>)
    requires
        format@ == "%y%m%d"@,
    ensures
        r == utc_timestamp(date@, format@, hour, min, sec),
        r matches Some(t) ==> t % 86_400 == hour * 3_600 + min * 60 + sec,
{
    let day = chrono::NaiveDate::parse_from_str(date, format).ok()?;
    Some(day.and_hms_opt(hour, min, sec)?.and_utc().timestamp())
}

/// The second at which an option expires whose symbol has the date `date`.
pub open spec fn expiry_of(date: Seq<char>) -> Option<i64> {
    utc_timestamp(date, "%y%m%d"@, 8, 0, 0)
}

/// The right that the last part of a symbol names.
pub open spec fn kind_of(letter: Seq<char>) -> OptionKind {
    if letter == "C"@ {
        OptionKind::Call
    } else if letter == "P"@ {
        OptionKind::Put
    } else {
        OptionKind::Other
    }
}

/// The price at which a ticker offers what it names: zero where it does not, and `None`
/// where it says that the price is not a number.
pub open spec fn ask_in(ticker: JsonView) -> Option<int> {
    match ticker.text_at("askPrice"@) {
        Some(t) => if says_nan(t) {
            None
        } else {
            Some(amount_or_zero(t))
        },
        None => Some(0),
    }
}

/// Reads the price at which a ticker offers what it names.
pub fn read_ask(ticker: &Json) -> (r: Option<i128>)
    ensures
        r is Some <==> ask_in(ticker@) is Some,
        r matches Some(a) ==> ask_in(ticker@) == Some(a as int) && in_range(a as int),
{
    match ticker.text_at("askPrice") {
        Some(t) => if is_nan(t) {
            None
        } else {
            Some(parse_or_zero(t))
        },
        None => Some(0),
    }
}

/// The price at which tickers offer a symbol: the last that names it counts; zero where
/// none does.
pub open spec fn ask_of(tickers: Seq<JsonView>, symbol: Seq<char>) -> Option<int>
    decreases tickers.len(),
{
    if tickers.len() == 0 {
        Some(0)
    } else if tickers.last().text_or_empty("symbol"@) == symbol {
        ask_in(tickers.last())
    } else {
        ask_of(tickers.drop_last(), symbol)
    }
}

/// The delta of a mark: a number, or one in text; zero where it is neither, and `None`
/// where the text says that it is not finite.
pub open spec fn delta_of(mark: JsonView) -> Option<int> {
    match mark.field("delta"@) {
        Some(d) => match d.number() {
            Some(x) => Some(x),
            None => match d.text() {
                Some(t) => if says_nan(t) || says_infinity(t) {
                    None
                } else {
                    Some(amount_or_zero(t))
                },
                None => Some(0),
            },
        },
        None => Some(0),
    }
}

/// The quote of a mark, where it is of an option on `base`.
pub open spec fn quote_of(
    mark: JsonView,
    base: Seq<char>,
    tickers: Seq<JsonView>,
) -> Option<QuoteView> {
    let symbol = mark.text_or_empty("symbol"@);
    let parts = split(symbol, '-');
    if base.is_prefix_of(symbol) && parts.len() == 4 {
        match expiry_of(parts[1]) {
            Some(expiry) => Some(
                QuoteView {
                    symbol,
                    kind: kind_of(parts[3]),
                    expiry: expiry as int,
                    strike: amount_or_zero(parts[2]),
                    ask: ask_of(tickers, symbol),
                    delta: delta_of(mark),
                },
            ),
            None => None,
        }
    } else {
        None
    }
}

/// The quotes of all marks of options on `base`.
pub open spec fn quotes_of(
    marks: Seq<JsonView>,
    base: Seq<char>,
    tickers: Seq<JsonView>,
) -> Seq<QuoteView>
    decreases marks.len(),
{
    if marks.len() == 0 {
        Seq::empty()
    } else {
        let before = quotes_of(marks.drop_last(), base, tickers);
        match quote_of(marks.last(), base, tickers) {
            Some(q) => before.push(q),
            None => before,
        }
    }
}

/// The items of an answer that is a list; none where it is not.
pub open spec fn listed(answer: JsonView) -> Seq<JsonView> {
    match answer.items() {
        Some(items) => items,
        None => Seq::empty(),
    }
}

/// Lists the symbols of tickers.
fn read_symbols(tickers: &Vec<Json>) -> (r: Vec<String>)
    ensures
        r@.len() == tickers@.len(),
        forall|i: int|
            0 <= i < r@.len() ==> (#[trigger] r@[i])@ == tickers@[i]@.text_or_empty("symbol"@),
{
    let mut r: Vec<String> = Vec::new();
    let mut i: usize = 0;
    while i < tickers.len()
        invariant
            i <= tickers@.len(),
            r@.len() == i,
            forall|j: int|
                0 <= j < i ==> (#[trigger] r@[j])@ == tickers@[j]@.text_or_empty("symbol"@),
        decreases tickers@.len() - i,
    {
        r.push(tickers[i].text_or_empty("symbol").to_owned());
        i = i + 1;
    }
    r
}

/// Finds the price at which tickers offer a symbol.
fn find_ask(tickers: &Vec<Json>, symbols: &Vec<String>, symbol: &String) -> (ask: Option<
    i128,
>)
    requires
        symbols@.len() == tickers@.len(),
        forall|i: int|
            0 <= i < symbols@.len() ==> (#[trigger] symbols@[i])@ == tickers@[i]@.text_or_empty(
                "symbol"@,
            ),
    ensures
        ask is Some <==> ask_of(views(tickers@), symbol@) is Some,
        ask matches Some(a) ==> ask_of(views(tickers@), symbol@) == Some(a as int) && in_range(
            a as int,
        ),
{
    let ghost all = views(tickers@);
    let mut i: usize = tickers.len();
    assert(all.take(i as int) == all);
    while i > 0
        invariant
            i <= tickers@.len(),
            symbols@.len() == tickers@.len(),
            forall|j: int|
                0 <= j < symbols@.len() ==> (#[trigger] symbols@[j])@
                    == tickers@[j]@.text_or_empty("symbol"@),
            all == views(tickers@),
            ask_of(all, symbol@) == ask_of(all.take(i as int), symbol@),
        decreases i,
    {
        assert(all.take(i as int).last() == tickers@[i - 1]@);
        assert(all.take(i as int).drop_last() == all.take(i - 1));
        if symbols[i - 1] == *symbol {
            return read_ask(&tickers[i - 1]);
        }
        i = i - 1;
    }
    Some(0)
}

/// Reads the delta of a mark.
fn read_delta(mark: &Json) -> (delta: Option<i128>)
    ensures
        delta is Some <==> delta_of(mark@) is Some,
        delta matches Some(x) ==> delta_of(mark@) == Some(x as int) && in_range(x as int),
{
    match mark.get("delta") {
        Some(d) => match d.as_amount() {
            Some(x) => Some(x),
            None => match d.as_str() {
                Some(t) => if is_nan(t) || is_infinity(t) {
                    None
                } else {
                    Some(parse_or_zero(t))
                },
                None => Some(0),
            },
        },
        None => Some(0),
    }
}

/// Reads the right that the last part of a symbol names.
fn read_kind(letter: &str) -> (kind: OptionKind)
    ensures
        kind == kind_of(letter@),
{
    if same_text(letter, "C") {
        OptionKind::Call
    } else if same_text(letter, "P") {
        OptionKind::Put
    } else {
        OptionKind::Other
    }
}

/// Reads the quote of a mark, where it is of an option on `base`.
fn read_quote(mark: &Json, base: &str, tickers: &Vec<Json>, symbols: &Vec<String>) -> (r: Option<
    Quote,
>)
    requires
        symbols@.len() == tickers@.len(),
        forall|i: int|
            0 <= i < symbols@.len() ==> (#[trigger] symbols@[i])@ == tickers@[i]@.text_or_empty(
                "symbol"@,
            ),
    ensures
        r is Some <==> quote_of(mark@, base@, views(tickers@)) is Some,
        r matches Some(q) ==> quote_of(mark@, base@, views(tickers@)) == Some(q@) && q.wf()
            && q.expiry != 0,
{
    let symbol = mark.text_or_empty("symbol");
    if !starts_with(symbol, base) {
        return None;
    }
    let parts = split_on(symbol, '-');
    assert(texts(parts@).len() == parts@.len());
    if parts.len() != 4 {
        return None;
    }
    let ghost names = texts(parts@);
    assert(names[1] == parts@[1]@ && names[2] == parts@[2]@ && names[3] == parts@[3]@);
    match utc_second(parts[1].as_str(), "%y%m%d", 8, 0, 0) {
        Some(expiry) => {
            let symbol = symbol.to_owned();
            let ask = find_ask(tickers, symbols, &symbol);
            Some(
                Quote {
                    symbol,
                    kind: read_kind(parts[3].as_str()),
                    expiry,
                    strike: parse_or_zero(parts[2].as_str()),
                    ask,
                    delta: read_delta(mark),
                },
            )
        },
        None => None,
    }
}

/// Reads the quotes of options on `base` from the answers about tickers and marks.
pub fn read_quotes(ticker: &Json, mark: &Json, base: &str) -> (r: Vec<Quote>)
    ensures
        quote_views(r@) == quotes_of(listed(mark@), base@, listed(ticker@)),
        quotes_wf(r@),
        forall|i: int| 0 <= i < r@.len() ==> (#[trigger] r@[i]).expiry != 0,
{
    let none: Vec<Json> = Vec::new();
    assert(views(none@) == Seq::<JsonView>::empty());
    let tickers = match ticker.as_array() {
        Some(items) => items,
        None => &none,
    };
    let marks = match mark.as_array() {
        Some(items) => items,
        None => &none,
    };
    let symbols = read_symbols(tickers);
    let ghost all = views(marks@);
    let mut r: Vec<Quote> = Vec::new();
    let mut i: usize = 0;
    assert(quote_views(r@) == Seq::<QuoteView>::empty());
    while i < marks.len()
        invariant
            i <= marks@.len(),
            symbols@.len() == tickers@.len(),
            forall|j: int|
                0 <= j < symbols@.len() ==> (#[trigger] symbols@[j])@
                    == tickers@[j]@.text_or_empty("symbol"@),
            all == views(marks@),
            quote_views(r@) == quotes_of(all.take(i as int), base@, views(tickers@)),
            quotes_wf(r@),
            forall|j: int| 0 <= j < r@.len() ==> (#[trigger] r@[j]).expiry != 0,
        decreases marks@.len() - i,
    {
        let ghost before = r@;
        assert(all.take(i + 1).drop_last() == all.take(i as int));
        assert(all.take(i + 1).last() == marks@[i as int]@);
        match read_quote(&marks[i], base, tickers, &symbols) {
            Some(q) => {
                r.push(q);
                assert(quote_views(r@) == quote_views(before).push(q@));
            },
            None => {},
        }
        i = i + 1;
    }
    assert(all.take(i as int) == all);
    r
}

/// Is there enough time left before a quoted option expires?
pub open spec fn lasts(q: QuoteView, now: int) -> bool {
    q.expiry - now >= MIN_SECONDS
}

/// The first second at which a quoted option expires that lasts long enough.
pub open spec fn next_expiry(quotes: Seq<QuoteView>, now: int) -> Option<int>
    decreases quotes.len(),
{
    if quotes.len() == 0 {
        None
    } else {
        let before = next_expiry(quotes.drop_last(), now);
        let q = quotes.last();
        if lasts(q, now) && (before is None || q.expiry < before->0) {
            Some(q.expiry)
        } else {
            before
        }
    }
}

/// An offer is above zero and at most 15 % of the price `s0`. Against one that is not a
/// number nothing is held.
pub open spec fn is_acceptable(ask: Option<int>, s0: int) -> bool {
    ask matches Some(a) ==> 0 < a && 100 * a <= 15 * s0
}

/// Can a quoted option be bought: of the kind and the expiry that is looked for, with a
/// delta, and an acceptable offer?
pub open spec fn is_eligible(q: QuoteView, kind: OptionKind, expiry: int, s0: int) -> bool {
    &&& q.kind == kind
    &&& q.expiry == expiry
    &&& q.delta is Some
    &&& is_acceptable(q.ask, s0)
}

/// How far the delta of a quote is from `aim`.
pub open spec fn off(q: QuoteView, aim: int) -> int {
    distance(q.delta->0, aim)
}

/// The quote whose delta is nearest to `aim` among those that can be bought; the first of
/// them where several are.
pub open spec fn nearest(
    quotes: Seq<QuoteView>,
    kind: OptionKind,
    expiry: int,
    s0: int,
    aim: int,
) -> Option<QuoteView>
    decreases quotes.len(),
{
    if quotes.len() == 0 {
        None
    } else {
        let before = nearest(quotes.drop_last(), kind, expiry, s0, aim);
        let q = quotes.last();
        if is_eligible(q, kind, expiry, s0) && (before is None || off(q, aim) < off(
            before->0,
            aim,
        )) {
            Some(q)
        } else {
            before
        }
    }
}

/// Finds the first second at which a quoted option expires that lasts long enough.
fn find_expiry(quotes: &Vec<Quote>, now: i64) -> (r: Option<i64>)
    ensures
        r is Some <==> next_expiry(quote_views(quotes@), now as int) is Some,
        r matches Some(t) ==> next_expiry(quote_views(quotes@), now as int) == Some(t as int),
{
    let ghost all = quote_views(quotes@);
    let mut r: Option<i64> = None;
    let mut i: usize = 0;
    while i < quotes.len()
        invariant
            i <= quotes@.len(),
            all == quote_views(quotes@),
            r is Some <==> next_expiry(all.take(i as int), now as int) is Some,
            r matches Some(t) ==> next_expiry(all.take(i as int), now as int) == Some(t as int),
        decreases quotes@.len() - i,
    {
        assert(all.take(i + 1).drop_last() == all.take(i as int));
        assert(all.take(i + 1).last() == quotes@[i as int]@);
        let expiry = quotes[i].expiry;
        if expiry as i128 - now as i128 >= MIN_SECONDS {
            let sooner = match r {
                Some(t) => expiry < t,
                None => true,
            };
            if sooner {
                r = Some(expiry);
            }
        }
        i = i + 1;
    }
    assert(all.take(i as int) == all);
    r
}

/// The distance of two amounts.
fn gap(a: i128, b: i128) -> (r: i128)
    requires
        in_range(a as int),
        in_range(b as int),
    ensures
        r == distance(a as int, b as int),
{
    if a >= b {
        a - b
    } else {
        b - a
    }
}

/// Finds the quote whose delta is nearest to `aim` among those that can be bought.
fn find_nearest(quotes: &Vec<Quote>, kind: OptionKind, expiry: i64, s0: i128, aim: i128) -> (r:
    Option<usize>)
    requires
        quotes_wf(quotes@),
        in_range(s0 as int),
        in_range(aim as int),
    ensures
        r is Some <==> nearest(
            quote_views(quotes@),
            kind,
            expiry as int,
            s0 as int,
            aim as int,
        ) is Some,
        r matches Some(i) ==> i < quotes@.len() && nearest(
            quote_views(quotes@),
            kind,
            expiry as int,
            s0 as int,
            aim as int,
        ) == Some(quotes@[i as int]@),
{
    let ghost all = quote_views(quotes@);
    let mut r: Option<usize> = None;
    let mut least: i128 = 0;
    let mut i: usize = 0;
    while i < quotes.len()
        invariant
            i <= quotes@.len(),
            all == quote_views(quotes@),
            quotes_wf(quotes@),
            in_range(s0 as int),
            in_range(aim as int),
            r is Some <==> nearest(
                all.take(i as int),
                kind,
                expiry as int,
                s0 as int,
                aim as int,
            ) is Some,
            r matches Some(b) ==> b < i && nearest(
                all.take(i as int),
                kind,
                expiry as int,
                s0 as int,
                aim as int,
            ) == Some(quotes@[b as int]@) && least == off(quotes@[b as int]@, aim as int),
        decreases quotes@.len() - i,
    {
        assert(all.take(i + 1).drop_last() == all.take(i as int));
        assert(all.take(i + 1).last() == quotes@[i as int]@);
        let q = &quotes[i];
        assert(quotes@[i as int].wf());
        let acceptable = match q.ask {
            Some(a) => a > 0 && 100 * a <= 15 * s0,
            None => true,
        };
        if q.kind == kind && q.expiry == expiry && acceptable {
            match q.delta {
                Some(delta) => {
                    let g = gap(delta, aim);
                    let nearer = match r {
                        Some(_) => g < least,
                        None => true,
                    };
                    if nearer {
                        r = Some(i);
                        least = g;
                    }
                },
                None => {},
            }
        }
        i = i + 1;
    }
    assert(all.take(i as int) == all);
    r
}

/// The prices between which the grid lies, and the options that are bought there.
pub struct OptionsInfo {
    pub p_be_down: i128,
    pub p_be_up: i128,
    pub put_sym: String,
    pub call_sym: String,
}

/// The prices and options, in numbers and texts.
pub struct OptionsView {
    pub p_be_down: int,
    pub p_be_up: int,
    pub put_sym: Seq<char>,
    pub call_sym: Seq<char>,
}

impl View for OptionsInfo {
    type V = OptionsView;

    open spec fn view(&self) -> OptionsView {
        OptionsView {
            p_be_down: self.p_be_down as int,
            p_be_up: self.p_be_up as int,
            put_sym: self.put_sym@,
            call_sym: self.call_sym@,
        }
    }
}

/// The quote that is picked: of the next expiry, and nearest to the delta `aim`.
pub open spec fn picked(
    quotes: Seq<QuoteView>,
    kind: OptionKind,
    s0: int,
    aim: int,
    now: int,
) -> Option<QuoteView> {
    match next_expiry(quotes, now) {
        Some(expiry) => nearest(quotes, kind, expiry, s0, aim),
        None => None,
    }
}

/// The options that are picked for the price `s0`. Where there is no put or no call, a
/// tenth below or above the price bounds the grid.
pub open spec fn options_for(
    quotes: Seq<QuoteView>,
    s0: int,
    target_delta: int,
    now: int,
) -> OptionsView {
    let call = picked(quotes, OptionKind::Call, s0, target_delta, now);
    let put = picked(quotes, OptionKind::Put, s0, -target_delta, now);
    OptionsView {
        p_be_down: match put {
            Some(q) => q.strike,
            None => product(s0, FALL as int),
        },
        p_be_up: match call {
            Some(q) => q.strike,
            None => product(s0, RISE as int),
        },
        put_sym: match put {
            Some(q) => q.symbol,
            None => Seq::empty(),
        },
        call_sym: match call {
            Some(q) => q.symbol,
            None => Seq::empty(),
        },
    }
}

/// Picks the options for the price `s0`.
pub fn pick_options(quotes: &Vec<Quote>, s0: i128, target_delta: i128, now: i64) -> (r:
    OptionsInfo)
    requires
        quotes_wf(quotes@),
        in_range(s0 as int),
        in_range(target_delta as int),
    ensures
        r@ == options_for(quote_views(quotes@), s0 as int, target_delta as int, now as int),
        in_range(r.p_be_down as int),
        in_range(r.p_be_up as int),
{
    let mut r = OptionsInfo {
        p_be_down: multiply(s0, FALL),
        p_be_up: multiply(s0, RISE),
        put_sym: String::new(),
        call_sym: String::new(),
    };
    match find_expiry(quotes, now) {
        Some(expiry) => {
            match find_nearest(quotes, OptionKind::Call, expiry, s0, target_delta) {
                Some(i) => {
                    assert(quotes@[i as int].wf());
                    r.p_be_up = quotes[i].strike;
                    r.call_sym = quotes[i].symbol.clone();
                },
                None => {},
            }
            match find_nearest(quotes, OptionKind::Put, expiry, s0, -target_delta) {
                Some(i) => {
                    assert(quotes@[i as int].wf());
                    r.p_be_down = quotes[i].strike;
                    r.put_sym = quotes[i].symbol.clone();
                },
                None => {},
            }
        },
        None => {},
    }
    r
}

/// The next expiry is that of a quoted option that lasts long enough, and no such option
/// expires sooner. There is none only where no option lasts long enough.
pub proof fn law_next_expiry_is_soonest(quotes: Seq<QuoteView>, now: int)
    ensures
        next_expiry(quotes, now) matches Some(t) ==> exists|i: int|
            0 <= i < quotes.len() && lasts(#[trigger] quotes[i], now) && quotes[i].expiry == t,
        forall|i: int|
            0 <= i < quotes.len() && lasts(#[trigger] quotes[i], now) ==> next_expiry(
                quotes,
                now,
            ) is Some && next_expiry(quotes, now)->0 <= quotes[i].expiry,
    decreases quotes.len(),
{
    if quotes.len() > 0 {
        let front = quotes.drop_last();
        law_next_expiry_is_soonest(front, now);
        assert forall|i: int| 0 <= i < quotes.len() && lasts(
            #[trigger] quotes[i],
            now,
        ) implies next_expiry(quotes, now) is Some && next_expiry(quotes, now)->0
            <= quotes[i].expiry by {
            if i < front.len() {
                assert(front[i] == quotes[i]);
            }
        }
        if let Some(t) = next_expiry(front, now) {
            let w = choose|i: int|
                0 <= i < front.len() && lasts(#[trigger] front[i], now) && front[i].expiry == t;
            assert(quotes[w] == front[w]);
        }
        assert(quotes[quotes.len() - 1] == quotes.last());
    }
}

/// The option that is picked can be bought, no other that can be bought has a delta nearer
/// to the aim, and every one before it has a delta further from the aim. None is picked
/// only where none can be bought.
pub proof fn law_picked_option_is_nearest(
    quotes: Seq<QuoteView>,
    kind: OptionKind,
    expiry: int,
    s0: int,
    aim: int,
)
    ensures
        nearest(quotes, kind, expiry, s0, aim) matches Some(q) ==> exists|w: int|
            0 <= w < quotes.len() && #[trigger] quotes[w] == q && is_eligible(q, kind, expiry, s0)
                && forall|i: int|
                0 <= i < w && is_eligible(#[trigger] quotes[i], kind, expiry, s0) ==> off(quotes[i], aim) > off(q, aim),
        forall|i: int|
            0 <= i < quotes.len() && is_eligible(#[trigger] quotes[i], kind, expiry, s0)
                ==> nearest(quotes, kind, expiry, s0, aim) is Some && off(nearest(quotes, kind, expiry, s0, aim)->0, aim) <= off(quotes[i], aim),
    decreases quotes.len(),
{
    if quotes.len() > 0 {
        let front = quotes.drop_last();
        law_picked_option_is_nearest(front, kind, expiry, s0, aim);
        let best = nearest(quotes, kind, expiry, s0, aim);
        assert forall|i: int| 0 <= i < quotes.len() && is_eligible(
            #[trigger] quotes[i],
            kind,
            expiry,
            s0,
        ) implies best is Some && off(best->0, aim) <= off(quotes[i], aim) by {
            if i < front.len() {
                assert(front[i] == quotes[i]);
            }
        }
        if let Some(q) = best {
            if best == nearest(front, kind, expiry, s0, aim) {
                let w = choose|w: int|
                    0 <= w < front.len() && #[trigger] front[w] == q && is_eligible(
                        q,
                        kind,
                        expiry,
                        s0,
                    ) && forall|i: int|
                        0 <= i < w && is_eligible(#[trigger] front[i], kind, expiry, s0)
                            ==> off(front[i], aim) > off(q, aim);
                assert(quotes[w] == front[w]);
                assert forall|i: int| 0 <= i < w && is_eligible(
                    #[trigger] quotes[i],
                    kind,
                    expiry,
                    s0,
                ) implies off(quotes[i], aim) > off(q, aim) by {
                    assert(front[i] == quotes[i]);
                }
            } else {
                let w = quotes.len() - 1;
                assert(quotes[w] == q);
                assert forall|i: int| 0 <= i < w && is_eligible(
                    #[trigger] quotes[i],
                    kind,
                    expiry,
                    s0,
                ) implies off(quotes[i], aim) > off(q, aim) by {
                    assert(front[i] == quotes[i]);
                }
            }
        }
    }
}

/// An option that is picked is of the kind that is looked for, lasts long enough, and its
/// offer is acceptable: above zero and at most 15 % of the price, if it is a number.
pub proof fn law_picked_option_is_worth_buying(
    quotes: Seq<QuoteView>,
    kind: OptionKind,
    s0: int,
    aim: int,
    now: int,
)
    ensures
        picked(quotes, kind, s0, aim, now) matches Some(q) ==> {
            &&& q.kind == kind
            &&& lasts(q, now)
            &&& is_acceptable(q.ask, s0)
        },
{
    law_next_expiry_is_soonest(quotes, now);
    if let Some(expiry) = next_expiry(quotes, now) {
        law_picked_option_is_nearest(quotes, kind, expiry, s0, aim);
    }
}

/// The option that is picked has the delta that is nearest to the aim by plain difference:
/// no option that can be bought is nearer, and each one before it is further away. It can
/// be bought itself: it is of the kind and the expiry, has a delta, and is offered for
/// more than nothing and at most 15 hundredths of the price, if the offer is a number.
pub proof fn law_picked_delta_is_nearest(
    quotes: Seq<QuoteView>,
    kind: OptionKind,
    expiry: int,
    s0: int,
    aim: int,
    i: int,
)
    requires
        0 <= i < quotes.len(),
        quotes[i].kind == kind,
        quotes[i].expiry == expiry,
        quotes[i].delta is Some,
        quotes[i].ask matches Some(a) ==> a > 0 && 100 * a <= 15 * s0,
    ensures
        nearest(quotes, kind, expiry, s0, aim) is Some,
        ({
            let best = nearest(quotes, kind, expiry, s0, aim)->0;
            let off_best = if best.delta->0 >= aim {
                best.delta->0 - aim
            } else {
                aim - best.delta->0
            };
            let off_other = if quotes[i].delta->0 >= aim {
                quotes[i].delta->0 - aim
            } else {
                aim - quotes[i].delta->0
            };
            &&& off_best <= off_other
            &&& best.kind == kind && best.expiry == expiry && best.delta is Some
            &&& best.ask matches Some(a) ==> a > 0 && 100 * a <= 15 * s0
            &&& exists|w: int| #![trigger quotes[w]]
                0 <= w < quotes.len() && quotes[w] == best && (i < w ==> off_best < off_other)
        }),
{
    law_picked_option_is_nearest(quotes, kind, expiry, s0, aim);
    assert(is_eligible(quotes[i], kind, expiry, s0));
    let best = nearest(quotes, kind, expiry, s0, aim)->0;
    let w = choose|w: int|
        0 <= w < quotes.len() && #[trigger] quotes[w] == best && is_eligible(best, kind, expiry, s0)
            && forall|j: int|
            0 <= j < w && is_eligible(#[trigger] quotes[j], kind, expiry, s0) ==> off(
                quotes[j],
                aim,
            ) > off(best, aim);
    assert(quotes[w] == best);
}

/// Nothing is picked but what is quoted and can be bought.
pub proof fn law_only_buyable_options_are_picked(
    quotes: Seq<QuoteView>,
    kind: OptionKind,
    expiry: int,
    s0: int,
    aim: int,
)
    ensures
        nearest(quotes, kind, expiry, s0, aim) matches Some(best) ==> {
            &&& quotes.contains(best)
            &&& best.kind == kind && best.expiry == expiry && best.delta is Some
            &&& best.ask matches Some(a) ==> a > 0 && 100 * a <= 15 * s0
        },
{
    law_picked_option_is_nearest(quotes, kind, expiry, s0, aim);
}

/// The next expiry is the soonest among the options with at least half a day, 43200
/// seconds, left; there is none only where no option has that much left.
pub proof fn law_next_expiry_leaves_half_a_day(quotes: Seq<QuoteView>, now: int, i: int)
    ensures
        0 <= i < quotes.len() && quotes[i].expiry >= now + 43_200 ==> next_expiry(
            quotes,
            now,
        ) is Some && next_expiry(quotes, now)->0 <= quotes[i].expiry,
        next_expiry(quotes, now) matches Some(t) ==> t >= now + 43_200 && exists|w: int|
            0 <= w < quotes.len() && (#[trigger] quotes[w]).expiry == t,
{
    law_next_expiry_is_soonest(quotes, now);
    if 0 <= i < quotes.len() && quotes[i].expiry >= now + 43_200 {
        assert(lasts(quotes[i], now));
    }
    if let Some(t) = next_expiry(quotes, now) {
        let w = choose|w: int|
            0 <= w < quotes.len() && lasts(#[trigger] quotes[w], now) && quotes[w].expiry == t;
        assert(quotes[w].expiry == t);
    }
}

/// The grid is bounded by the strike of the picked call above and of the picked put below;
/// the call has its delta nearest to the target, the put to its opposite. Where there is
/// no call the bound is eleven tenths of the price, where there is no put nine tenths, to
/// the nearest unit, and no option is named.
pub proof fn law_bounds_of_the_grid(
    quotes: Seq<QuoteView>,
    s0: int,
    target_delta: int,
    now: int,
)
    requires
        0 <= 11 * s0 <= 10 * LIMIT,
    ensures
        ({
            let r = options_for(quotes, s0, target_delta, now);
            let expiry = next_expiry(quotes, now);
            let call = if expiry is Some {
                nearest(quotes, OptionKind::Call, expiry->0, s0, target_delta)
            } else {
                None
            };
            let put = if expiry is Some {
                nearest(quotes, OptionKind::Put, expiry->0, s0, -target_delta)
            } else {
                None
            };
            &&& call matches Some(q) ==> r.p_be_up == q.strike && r.call_sym == q.symbol
            &&& put matches Some(q) ==> r.p_be_down == q.strike && r.put_sym == q.symbol
            &&& call is None ==> r.call_sym.len() == 0 && -5 <= 10 * r.p_be_up - 11 * s0 <= 5
            &&& put is None ==> r.put_sym.len() == 0 && -5 <= 10 * r.p_be_down - 9 * s0 <= 5
        }),
{
    lemma_round_div(s0 * RISE, SCALE as int);
    lemma_round_div(s0 * FALL, SCALE as int);
}

/// A quote is read from a mark whose symbol begins with the base and has four parts, the
/// second a date: its strike is the third part, its kind the fourth, its offer that of the
/// last ticker with its symbol.
pub proof fn law_quote_follows_the_mark(
    mark: JsonView,
    base: Seq<char>,
    tickers: Seq<JsonView>,
)
    ensures
        ({
            let symbol = mark.text_or_empty("symbol"@);
            let parts = split(symbol, '-');
            let expiry = utc_timestamp(parts[1], "%y%m%d"@, 8, 0, 0);
            let wanted = base.len() <= symbol.len() && symbol.take(base.len() as int) == base
                && parts.len() == 4 && expiry is Some;
            &&& quote_of(mark, base, tickers) is Some <==> wanted
            &&& quote_of(mark, base, tickers) matches Some(q) ==> {
                &&& q.symbol == symbol
                &&& q.expiry == expiry->0
                &&& q.strike == amount_or_zero(parts[2])
                &&& q.kind == OptionKind::Call <==> parts[3] == "C"@
                &&& q.kind == OptionKind::Put <==> parts[3] == "P"@
                &&& q.ask == ask_of(tickers, symbol)
                &&& q.delta == delta_of(mark)
            }
        }),
{
    reveal_strlit("C");
    reveal_strlit("P");
    assert("C"@[0] == 'C' && "P"@[0] == 'P');
    let symbol = mark.text_or_empty("symbol"@);
    if base.len() <= symbol.len() {
        assert(symbol.take(base.len() as int) =~= symbol.subrange(0, base.len() as int));
    }
}

/// The last ticker with a symbol gives its offer; where there is none it is zero.
pub proof fn law_last_ticker_counts(tickers: Seq<JsonView>, symbol: Seq<char>, i: int)
    ensures
        0 <= i < tickers.len() && tickers[i].text_or_empty("symbol"@) == symbol && (forall|j: int|
            i < j < tickers.len() ==> (#[trigger] tickers[j]).text_or_empty("symbol"@) != symbol)
            ==> match tickers[i].text_at("askPrice"@) {
            Some(t) => says_nan(t) && ask_of(tickers, symbol) is None || !says_nan(t) && ask_of(
                tickers,
                symbol,
            ) == Some(amount_or_zero(t)),
            None => ask_of(tickers, symbol) == Some(0int),
        },
        (forall|j: int|
            0 <= j < tickers.len() ==> (#[trigger] tickers[j]).text_or_empty("symbol"@) != symbol)
            ==> ask_of(tickers, symbol) == Some(0int),
    decreases tickers.len(),
{
    if tickers.len() > 0 {
        let front = tickers.drop_last();
        law_last_ticker_counts(front, symbol, i);
        assert(tickers[tickers.len() - 1] == tickers.last());
        assert forall|j: int| 0 <= j < front.len() implies #[trigger] front[j] == tickers[j] by {}
    }
}

/// The delta of a mark is its number, or the number in its text, or zero; an infinity or
/// what is not a number is none.
pub proof fn law_delta_of_a_mark(mark: JsonView)
    ensures
        match mark.field("delta"@) {
            Some(JsonView::Number(_, t)) => amount_of(t) is Some ==> delta_of(mark) == amount_of(t),
            Some(JsonView::Text(t)) => if says_nan(t) || says_infinity(t) {
                delta_of(mark) is None
            } else if amount_of(t) is Some {
                delta_of(mark) == amount_of(t)
            } else {
                delta_of(mark) == Some(0int)
            },
            _ => delta_of(mark) == Some(0int),
        },
{
}

/// Every mark that makes a quote gives one, in order, and no other does.
pub proof fn law_quotes_come_from_marks(
    marks: Seq<JsonView>,
    mark: JsonView,
    base: Seq<char>,
    tickers: Seq<JsonView>,
)
    ensures
        quotes_of(Seq::empty(), base, tickers).len() == 0,
        quote_of(mark, base, tickers) matches Some(q) ==> quotes_of(
            marks.push(mark),
            base,
            tickers,
        ) == quotes_of(marks, base, tickers).push(q),
        quote_of(mark, base, tickers) is None ==> quotes_of(marks.push(mark), base, tickers)
            == quotes_of(marks, base, tickers),
{
    assert(marks.push(mark).drop_last() == marks);
}

/// Only the items of a list are looked at; another answer holds none.
pub proof fn law_only_lists_hold_items(answer: JsonView)
    ensures
        answer matches JsonView::List(items) ==> listed(answer) == items,
        !(answer is List) ==> listed(answer).len() == 0,
{
}

}
