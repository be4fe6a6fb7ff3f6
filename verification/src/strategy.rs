//! The bot: waiting for a price, setting the grid up, and keeping it.
use crate::amount::{
    clamp, clamp_amount, in_range, lemma_round_div, near_range, round_div, LIMIT, SCALE,
};
use crate::binance::{BinanceAdapter, MIN_OPTION};
use crate::geometry::{Config, StrategyGeometry};
use crate::grid::ideal_orders;
use crate::models::{OrderCounter, PosSide, WsCommand};
use crate::okx::OkxAdapter;
use crate::options::{OptionsInfo, OptionsView};
use crate::scan::{asks_for, cancels, count_after, missing, reconciliation_scan};
use crate::session::{is_step, session_step, SessionEvent, SessionStep};
use crate::wide::{lemma_powers_of_scale, lemma_signed_product, round_signed, unsigned, Wide};
use vstd::arithmetic::div_mod::{lemma_div_denominator, lemma_div_multiples_vanish};
use vstd::prelude::*;

verus! {

/// The price is read again at most this many times before the bot gives up.
pub const MAX_RETRIES: u32 = 20;

/// The leverage on either side.
pub const LEVERAGE: u32 = 100;

/// The step of the sizes of options: 0.01.
pub const OPTION_STEP: i128 = 100_000_000;

/// The bot.
pub struct NeutralGridBot {
    pub okx_api: OkxAdapter,
    pub binance_api: BinanceAdapter,
    pub config: Config,
    pub counter: OrderCounter,
}

/// What to do while there is no price yet.
#[derive(Clone, Copy, Debug, PartialEq, Eq, Structural)]
pub enum StartStep {
    /// Go on with this price.
    Proceed(i128),
    /// Wait, and read the price again.
    Wait,
    /// Give up.
    TimedOut,
}

/// What to do about a price that was read again `retries` times.
pub open spec fn start_step(retries: int, price: int) -> StartStep {
    if retries > MAX_RETRIES {
        StartStep::TimedOut
    } else if price > 0 {
        StartStep::Proceed(price as i128)
    } else {
        StartStep::Wait
    }
}

/// The price that the bot goes on with where the readings are `readings`, the first of
/// them that still counts being `retries`; `None` where it gives up.
pub open spec fn start_price(readings: spec_fn(int) -> i128, retries: int) -> Option<int>
    decreases MAX_RETRIES + 1 - retries,
{
    if retries > MAX_RETRIES {
        None
    } else if readings(retries) > 0 {
        Some(readings(retries) as int)
    } else {
        start_price(readings, retries + 1)
    }
}

/// A task of setting the grid up.
pub enum Task {
    /// Hold at least a size of an option.
    Secure(String, i128),
    /// Hold positions on both sides.
    SetPositionMode,
    /// Set the leverage on one side.
    SetLeverage(PosSide, u32),
    /// Have at least a balance.
    Fund(i128),
}

/// A task, in numbers and texts.
pub enum TaskView {
    Secure(Seq<char>, int),
    SetPositionMode,
    SetLeverage(PosSide, u32),
    Fund(int),
}

impl View for Task {
    type V = TaskView;

    open spec fn view(&self) -> TaskView {
        match self {
            Task::Secure(symbol, size) => TaskView::Secure(symbol@, *size as int),
            Task::SetPositionMode => TaskView::SetPositionMode,
            Task::SetLeverage(pos_side, leverage) => TaskView::SetLeverage(*pos_side, *leverage),
            Task::Fund(balance) => TaskView::Fund(*balance as int),
        }
    }
}

/// A list of tasks, in numbers and texts.
pub open spec fn task_views(tasks: Seq<Task>) -> Seq<TaskView> {
    Seq::new(tasks.len(), |i: int| tasks[i]@)
}

/// The sizes and balances of the tasks are near the limits of amounts at most.
pub open spec fn tasks_wf(tasks: Seq<Task>) -> bool {
    forall|i: int|
        0 <= i < tasks.len() ==> match #[trigger] tasks[i] {
            Task::Secure(_, size) => near_range(size as int),
            Task::Fund(balance) => near_range(balance as int),
            _ => true,
        }
}

/// The size of either option that goes with a grid, rounded once.
pub open spec fn option_size(config: Config, geo: StrategyGeometry) -> int {
    clamp(round_div(geo.actual_q_s * config.ct_val, SCALE * OPTION_STEP) * OPTION_STEP)
}

/// A hundredfold of both leaves a rounded quotient as it is.
proof fn lemma_round_hundredfold(a: int, b: int)
    requires
        b > 0,
    ensures
        round_div(100 * a, 100 * b) == round_div(a, b),
{
    let m = if a >= 0 {
        a
    } else {
        -a
    };
    let x = 2 * m + b;
    let d = 2 * b;
    assert(2 * (100 * m) + 100 * b == 100 * x && 2 * (100 * b) == 100 * d);
    lemma_div_denominator(100 * x, 100, d);
    lemma_div_multiples_vanish(x, 100);
}

/// Computes the size of either option that goes with a grid.
fn compute_option_size(config: &Config, geo: &StrategyGeometry) -> (r: i128)
    requires
        in_range(config.ct_val as int),
        geo.wf(),
    ensures
        r == option_size(*config, *geo),
        in_range(r as int),
{
    let size = unsigned(geo.actual_q_s);
    let worth = unsigned(config.ct_val);
    let whole = Wide::new(size).times(worth).times(100);
    let negative = (geo.actual_q_s < 0) != (config.ct_val < 0);
    proof {
        lemma_signed_product(size as int, geo.actual_q_s < 0, worth as int, config.ct_val < 0);
        lemma_powers_of_scale();
        lemma_round_hundredfold(geo.actual_q_s * config.ct_val, SCALE * OPTION_STEP);
        assert(100 * (SCALE * OPTION_STEP) == SCALE * SCALE);
        assert(whole@ == 100 * (size * worth));
    }
    let steps = round_signed(&whole, negative, 2);
    clamp_amount(steps * OPTION_STEP)
}

/// The task of securing an option, where there is one and its size is not too small.
pub open spec fn secure(symbol: Seq<char>, size: int) -> Seq<TaskView> {
    if size >= MIN_OPTION && symbol.len() > 0 {
        seq![TaskView::Secure(symbol, size)]
    } else {
        Seq::empty()
    }
}

/// The tasks of setting a grid up, in their order.
pub open spec fn tasks_for(
    config: Config,
    geo: StrategyGeometry,
    put_sym: Seq<char>,
    call_sym: Seq<char>,
) -> Seq<TaskView> {
    let size = option_size(config, geo);
    secure(call_sym, size) + secure(put_sym, size) + seq![
        TaskView::SetPositionMode,
        TaskView::SetLeverage(PosSide::Long, LEVERAGE),
        TaskView::SetLeverage(PosSide::Short, LEVERAGE),
        TaskView::Fund(geo.margin_total as int),
    ]
}

/// The options that bound the grid; without an answer, the configured prices do.
pub open spec fn options_or_configured(config: Config, found: Option<OptionsView>) -> OptionsView {
    match found {
        Some(o) => o,
        None => OptionsView {
            p_be_down: config.p_be_down as int,
            p_be_up: config.p_be_up as int,
            put_sym: Seq::empty(),
            call_sym: Seq::empty(),
        },
    }
}

/// The options that were found, in numbers and texts.
pub open spec fn found_view(found: Option<OptionsInfo>) -> Option<OptionsView> {
    match found {
        Some(o) => Some(o@),
        None => None,
    }
}

/// Takes the options that were found, or the configured prices.
pub fn choose_options(config: &Config, found: Option<OptionsInfo>) -> (r: OptionsInfo)
    ensures
        r@ == options_or_configured(*config, found_view(found)),
{
    match found {
        Some(o) => o,
        None => OptionsInfo {
            p_be_down: config.p_be_down,
            p_be_up: config.p_be_up,
            put_sym: String::new(),
            call_sym: String::new(),
        },
    }
}

/// The configuration with the grid between two prices.
pub fn bounded(config: &Config, options: &OptionsInfo) -> (r: Config)
    ensures
        r == (Config { p_be_down: options.p_be_down, p_be_up: options.p_be_up, ..*config }),
{
    Config { p_be_down: options.p_be_down, p_be_up: options.p_be_up, ..*config }
}

/// What is still to be added to `have`, taken as zero where it is not known, to reach
/// `want`.
pub open spec fn shortfall(have: Option<i128>, want: int) -> Option<int> {
    let known = match have {
        Some(x) => x as int,
        None => 0,
    };
    if known < want {
        Some(want - known)
    } else {
        None
    }
}

/// Computes what is still to be added to `have` to reach `want`.
pub fn missing_amount(have: Option<i128>, want: i128) -> (r: Option<i128>)
    requires
        have matches Some(x) ==> in_range(x as int),
        near_range(want as int),
    ensures
        r is Some <==> shortfall(have, want as int) is Some,
        r matches Some(x) ==> shortfall(have, want as int) == Some(x as int) && 0 < x,
{
    let known: i128 = match have {
        Some(x) => x,
        None => 0,
    };
    if known < want {
        Some(want - known)
    } else {
        None
    }
}

/// Adds the task of securing an option, where there is one and its size is not too small.
fn add_secure(tasks: &mut Vec<Task>, symbol: &String, size: i128)
    requires
        tasks_wf(old(tasks)@),
        near_range(size as int),
    ensures
        tasks_wf(final(tasks)@),
        task_views(final(tasks)@) == task_views(old(tasks)@) + secure(symbol@, size as int),
{
    let ghost before = tasks@;
    if size >= MIN_OPTION && !symbol.as_str().is_empty() {
        tasks.push(Task::Secure(symbol.clone(), size));
    }
    assert(task_views(tasks@) == task_views(before) + secure(symbol@, size as int));
}

/// Lists the tasks of setting a grid up, in their order.
pub fn deployment(config: &Config, geo: &StrategyGeometry, options: &OptionsInfo) -> (tasks: Vec<
    Task,
>)
    requires
        in_range(config.ct_val as int),
        geo.wf(),
    ensures
        task_views(tasks@) == tasks_for(*config, *geo, options.put_sym@, options.call_sym@),
        tasks_wf(tasks@),
{
    let size = compute_option_size(config, geo);
    let mut tasks: Vec<Task> = Vec::new();
    assert(task_views(tasks@) == Seq::<TaskView>::empty());
    add_secure(&mut tasks, &options.call_sym, size);
    add_secure(&mut tasks, &options.put_sym, size);
    let ghost secured = task_views(tasks@);
    tasks.push(Task::SetPositionMode);
    tasks.push(Task::SetLeverage(PosSide::Long, LEVERAGE));
    tasks.push(Task::SetLeverage(PosSide::Short, LEVERAGE));
    tasks.push(Task::Fund(geo.margin_total));
    assert(task_views(tasks@) == tasks_for(*config, *geo, options.put_sym@, options.call_sym@));
    tasks
}

/// What happens while the grid is kept.
#[derive(Clone, Copy, Debug, PartialEq, Eq, Structural)]
pub enum LoopEvent {
    /// It is time for a look.
    Tick,
    /// The session tells that something changed.
    Changed,
    /// The session has ended.
    Closed,
}

/// What to do about it.
#[derive(Clone, Copy, Debug, PartialEq, Eq, Structural)]
pub enum LoopStep {
    /// Look at the grid.
    Scan,
    /// Wait a moment, drop what the session has told meanwhile, and look at the grid.
    SettleThenScan,
    /// End.
    Stop,
}

/// What to do about an event while the grid is kept.
pub fn loop_step(event: LoopEvent) -> (step: LoopStep)
    ensures
        step == match event {
            LoopEvent::Tick => LoopStep::Scan,
            LoopEvent::Changed => LoopStep::SettleThenScan,
            LoopEvent::Closed => LoopStep::Stop,
        },
{
    match event {
        LoopEvent::Tick => LoopStep::Scan,
        LoopEvent::Changed => LoopStep::SettleThenScan,
        LoopEvent::Closed => LoopStep::Stop,
    }
}

/// What the lack of a price is reported as.
pub fn start_timed_out() -> (s: &'static str)
    ensures
        s@ == "Timeout waiting for initial WS data"@,
{
    "Timeout waiting for initial WS data"
}

/// What the end of the session is reported as.
pub fn stream_closed() -> (s: &'static str)
    ensures
        s@ == "WS stream disconnected"@,
{
    "WS stream disconnected"
}

impl NeutralGridBot {
    /// The configuration can be built from, and what the session knows is well formed.
    pub open spec fn wf(self) -> bool {
        &&& self.config.wf()
        &&& self.okx_api.ws_state.wf()
    }

    /// A bot that has placed no orders yet.
    pub fn new(okx_api: OkxAdapter, binance_api: BinanceAdapter, config: Config) -> (r:
        NeutralGridBot)
        ensures
            r.okx_api == okx_api,
            r.binance_api == binance_api,
            r.config == config,
            r.counter@ == 0,
    {
        NeutralGridBot { okx_api, binance_api, config, counter: OrderCounter::new() }
    }

    /// What to do about the price, after it was read again `retries` times.
    pub fn start(&self, symbol: &str, retries: u32) -> (step: StartStep)
        ensures
            step == start_step(retries as int, self.okx_api.ws_state.price as int),
    {
        let price = self.okx_api.get_current_price(symbol);
        if retries > MAX_RETRIES {
            StartStep::TimedOut
        } else if price > 0 {
            StartStep::Proceed(price)
        } else {
            StartStep::Wait
        }
    }

    /// What the session does about an event.
    pub fn on_session_event(&mut self, symbol: &str, event: SessionEvent) -> (step: SessionStep)
        requires
            old(self).wf(),
        ensures
            final(self).wf(),
            final(self).config == old(self).config,
            final(self).counter == old(self).counter,
            final(self).okx_api.account == old(self).okx_api.account,
            final(self).binance_api == old(self).binance_api,
            is_step(
                old(self).okx_api.ws_state@,
                symbol@,
                event,
                final(self).okx_api.ws_state@,
                step,
            ),
    {
        session_step(&mut self.okx_api.ws_state, symbol, event)
    }

    /// Looks at the grid, and asks for what brings the open orders to those that it
    /// should have.
    pub fn reconciliation_scan(&mut self, geo: &StrategyGeometry) -> (commands: Vec<WsCommand>)
        requires
            old(self).wf(),
            geo.wf(),
        ensures
            final(self).okx_api == old(self).okx_api,
            final(self).binance_api == old(self).binance_api,
            final(self).config == old(self).config,
            ({
                let config = old(self).config;
                let state = old(self).okx_api.ws_state;
                let ideal = ideal_orders(config, *geo, state@);
                let entries = state.open_orders.walk();
                let count = old(self).counter@;
                if state.price <= 0 {
                    commands@.len() == 0 && final(self).counter@ == count
                } else {
                    &&& asks_for(
                        config,
                        *geo,
                        commands@,
                        cancels(config, ideal, entries),
                        missing(config, ideal, entries),
                        count,
                    )
                    &&& final(self).counter@ == count_after(
                        count,
                        missing(config, ideal, entries).len() as int,
                    )
                }
            }),
    {
        reconciliation_scan(&self.config, geo, &self.okx_api.ws_state, &mut self.counter)
    }
}

/// The bot goes on with the first price above zero, and gives up where none of the
/// readings that count gives one.
pub proof fn law_first_price_is_taken(readings: spec_fn(int) -> i128, retries: int)
    requires
        retries >= 0,
    ensures
        start_price(readings, retries) matches Some(p) ==> exists|i: int|
            retries <= i <= MAX_RETRIES && #[trigger] readings(i) == p && p > 0 && forall|j: int|
                retries <= j < i ==> #[trigger] readings(j) <= 0,
        start_price(readings, retries) is None ==> forall|j: int|
            retries <= j <= MAX_RETRIES ==> #[trigger] readings(j) <= 0,
    decreases MAX_RETRIES + 1 - retries,
{
    if retries <= MAX_RETRIES {
        if readings(retries) <= 0 {
            law_first_price_is_taken(readings, retries + 1);
        }
    }
}

/// Step by step the bot does what `start_price` says: it goes on with that price, or reads
/// on, or gives up.
pub proof fn law_start_follows_its_steps(readings: spec_fn(int) -> i128, retries: int)
    ensures
        match start_step(retries, readings(retries) as int) {
            StartStep::Proceed(price) => start_price(readings, retries) == Some(price as int),
            StartStep::Wait => start_price(readings, retries) == start_price(
                readings,
                retries + 1,
            ),
            StartStep::TimedOut => start_price(readings, retries) is None,
        },
{
}

/// What is held after the shortfall is added is what was wanted, or what was held before
/// where that is more.
pub proof fn law_shortfall_is_made_up(have: i128, want: int)
    ensures
        match shortfall(Some(have), want) {
            Some(x) => x > 0 && have + x == want,
            None => have >= want,
        },
{
}

/// The bot waits while there is no price above zero, goes on with the first one, and gives
/// up once it has read the price again more than twenty times, whatever it is then.
pub proof fn law_start_waits_for_a_price(retries: int, price: i128)
    requires
        retries >= 0,
    ensures
        retries > 20 ==> start_step(retries, price as int) == StartStep::TimedOut,
        retries <= 20 && price > 0 ==> start_step(retries, price as int) == StartStep::Proceed(price),
        retries <= 20 && price <= 0 ==> start_step(retries, price as int) == StartStep::Wait,
{
}

/// Either option is wanted in the size of one side times the contract value, to the
/// nearest hundredth.
pub proof fn law_option_matches_the_side(config: Config, geo: StrategyGeometry)
    ensures
        ({
            let exact = geo.actual_q_s * config.ct_val;
            let unit = 1_000_000_000_000_000_000int;
            let r = option_size(config, geo);
            &&& -LIMIT <= r <= LIMIT
            &&& -LIMIT < r < LIMIT ==> exists|c: int| r == #[trigger] (c * 100_000_000) && -unit <= 2
                * (c * unit - exact) <= unit
        }),
{
    let exact = geo.actual_q_s * config.ct_val;
    let unit = 1_000_000_000_000_000_000int;
    assert(SCALE * OPTION_STEP == unit) by {
        assert(10_000_000_000int * 100_000_000 == unit) by (nonlinear_arith)
            requires
                unit == 1_000_000_000_000_000_000int,
        ;
    }
    lemma_round_div(exact, unit);
    let c = round_div(exact, unit);
    assert(c * 100_000_000 == c * OPTION_STEP);
}

/// Setting the grid up: the options that are named are secured first, the call before the
/// put, where at least a hundredth is wanted; then come the position mode, the leverage of
/// a hundred on the long side and on the short side, and last the funds.
pub proof fn law_deployment_goes_in_order(
    config: Config,
    geo: StrategyGeometry,
    put_sym: Seq<char>,
    call_sym: Seq<char>,
)
    ensures
        ({
            let tasks = tasks_for(config, geo, put_sym, call_sym);
            let size = option_size(config, geo);
            let call: int = if size >= 100_000_000 && call_sym.len() > 0 {
                1
            } else {
                0
            };
            let put: int = if size >= 100_000_000 && put_sym.len() > 0 {
                1
            } else {
                0
            };
            let n = call + put;
            &&& tasks.len() == n + 4
            &&& call == 1 ==> tasks[0] == TaskView::Secure(call_sym, size)
            &&& put == 1 ==> tasks[call] == TaskView::Secure(put_sym, size)
            &&& tasks[n] == TaskView::SetPositionMode
            &&& tasks[n + 1] == TaskView::SetLeverage(PosSide::Long, 100)
            &&& tasks[n + 2] == TaskView::SetLeverage(PosSide::Short, 100)
            &&& tasks[n + 3] == TaskView::Fund(geo.margin_total as int)
        }),
{
}

/// Without an answer the configured prices bound the grid and no option is named.
pub proof fn law_configured_prices_stand_in(config: Config, found: OptionsView)
    ensures
        options_or_configured(config, Some(found)) == found,
        options_or_configured(config, None).p_be_up == config.p_be_up,
        options_or_configured(config, None).p_be_down == config.p_be_down,
        options_or_configured(config, None).put_sym.len() == 0,
        options_or_configured(config, None).call_sym.len() == 0,
{
}

/// What is not known counts as nothing: all that is wanted is missing.
pub proof fn law_unknown_counts_as_nothing(want: int)
    ensures
        want > 0 ==> shortfall(None, want) == Some(want),
        want <= 0 ==> shortfall(None, want) is None,
{
}

}
