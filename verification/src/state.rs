//! What the trading session knows of the account: the price, the positions and the open
//! orders, and how messages change it.
use crate::amount::{
    amount_of, apart, clamp, clamp_amount, distance, in_range, is_nan, magnitude, parse_amount,
    says_nan,
};
use crate::book::OpenOrders;
use crate::json::{document_or_empty, parse_or_empty, views, Json, JsonView};
use crate::models::id_mark;
use crate::text::{same_text, starts_with};
use vstd::prelude::*;

verus! {

/// Changes up to this amount, a millionth, go unnoticed.
pub const NOTICE: i128 = 10_000;

/// What the session knows of the account.
pub struct WsState {
    pub price: i128,
    pub pos_long: i128,
    pub pos_short: i128,
    pub open_orders: OpenOrders,
}

/// What the session knows of the account, as numbers and a map.
#[verifier::ext_equal]
pub struct WsStateView {
    pub price: int,
    pub pos_long: int,
    pub pos_short: int,
    pub orders: Map<Seq<char>, (int, int)>,
}

impl View for WsState {
    type V = WsStateView;

    open spec fn view(&self) -> WsStateView {
        WsStateView {
            price: self.price as int,
            pos_long: self.pos_long as int,
            pos_short: self.pos_short as int,
            orders: self.open_orders@,
        }
    }
}

/// No price, no positions, no orders.
pub open spec fn nothing_known() -> WsStateView {
    WsStateView { price: 0, pos_long: 0, pos_short: 0, orders: Map::empty() }
}

impl Default for WsState {
    /// Nothing is known yet.
    fn default() -> (r: WsState)
        ensures
            r.wf(),
            r@ == nothing_known(),
    {
        WsState { price: 0, pos_long: 0, pos_short: 0, open_orders: OpenOrders::new() }
    }
}

/// The size of a position in a message.
pub open spec fn position_size(item: JsonView) -> int {
    magnitude(item.amount_at("pos"@))
}

/// Does an item say that its position is not a number?
pub open spec fn position_is_nan(item: JsonView) -> bool {
    match item.text_at("pos"@) {
        Some(t) => says_nan(t),
        None => false,
    }
}

/// What an order in a message leaves to fill.
pub open spec fn remaining_size(order: JsonView) -> int {
    clamp(order.amount_at("sz"@) - order.amount_at("accFillSz"@))
}

/// Is the order in a message one of the grid's?
pub open spec fn is_grid_order(order: JsonView) -> bool {
    id_mark().is_prefix_of(order.text_or_empty("clOrdId"@))
}

/// Takes over the position of an item.
pub open spec fn take_position(st: WsStateView, item: JsonView) -> WsStateView {
    if item.text_at("posSide"@) == Some("long"@) {
        WsStateView { pos_long: position_size(item), ..st }
    } else if item.text_at("posSide"@) == Some("short"@) {
        WsStateView { pos_short: position_size(item), ..st }
    } else {
        st
    }
}

/// Takes over the positions of all items, one after another.
pub open spec fn take_positions(st: WsStateView, items: Seq<JsonView>) -> WsStateView
    decreases items.len(),
{
    if items.len() == 0 {
        st
    } else {
        take_position(take_positions(st, items.drop_last()), items.last())
    }
}

/// Takes over a pending order, where it is one of the grid's.
pub open spec fn take_pending(st: WsStateView, order: JsonView) -> WsStateView {
    match order.text_at("clOrdId"@) {
        Some(id) => if id_mark().is_prefix_of(id) {
            WsStateView {
                orders: st.orders.insert(id, (remaining_size(order), order.amount_at("px"@))),
                ..st
            }
        } else {
            st
        },
        None => st,
    }
}

/// Takes over all pending orders, one after another.
pub open spec fn take_all_pending(st: WsStateView, items: Seq<JsonView>) -> WsStateView
    decreases items.len(),
{
    if items.len() == 0 {
        st
    } else {
        take_pending(take_all_pending(st, items.drop_last()), items.last())
    }
}

/// What the session knows, and whether something changed that the grid must follow.
#[verifier::ext_equal]
pub struct Noticed {
    pub st: WsStateView,
    pub trigger: bool,
}

/// An order whose cancellation was refused is gone.
pub open spec fn note_cancel(n: Noticed, item: JsonView) -> Noticed {
    let refused = match item.text_at("sCode"@) {
        Some(code) => code != "0"@,
        None => false,
    };
    match item.text_at("clOrdId"@) {
        Some(id) => if refused && n.st.orders.dom().contains(id) {
            Noticed {
                st: WsStateView { orders: n.st.orders.remove(id), ..n.st },
                trigger: true,
            }
        } else {
            n
        },
        None => n,
    }
}

/// The answers to cancellations, one after another.
pub open spec fn note_cancels(n: Noticed, items: Seq<JsonView>) -> Noticed
    decreases items.len(),
{
    if items.len() == 0 {
        n
    } else {
        note_cancel(note_cancels(n, items.drop_last()), items.last())
    }
}

/// A position that changed noticeably is taken over; one that is not a number is not.
pub open spec fn note_position(n: Noticed, item: JsonView) -> Noticed {
    let size = position_size(item);
    if position_is_nan(item) {
        n
    } else if item.text_at("posSide"@) == Some("long"@) {
        if distance(n.st.pos_long, size) > NOTICE {
            Noticed { st: WsStateView { pos_long: size, ..n.st }, trigger: true }
        } else {
            n
        }
    } else if item.text_at("posSide"@) == Some("short"@) {
        if distance(n.st.pos_short, size) > NOTICE {
            Noticed { st: WsStateView { pos_short: size, ..n.st }, trigger: true }
        } else {
            n
        }
    } else {
        n
    }
}

/// The positions of a message, one after another.
pub open spec fn note_positions(n: Noticed, items: Seq<JsonView>) -> Noticed
    decreases items.len(),
{
    if items.len() == 0 {
        n
    } else {
        note_position(note_positions(n, items.drop_last()), items.last())
    }
}

/// Is the order still open?
pub open spec fn is_working(order: JsonView) -> bool {
    order.text_or_empty("state"@) == "live"@ || order.text_or_empty("state"@)
        == "partially_filled"@
}

/// Does the order differ noticeably from what is known of it?
pub open spec fn is_news(st: WsStateView, order: JsonView) -> bool {
    let id = order.text_or_empty("clOrdId"@);
    !st.orders.dom().contains(id) || distance(st.orders[id].0, remaining_size(order)) > NOTICE
        || distance(st.orders[id].1, order.amount_at("px"@)) > NOTICE
}

/// An order of the grid that is open is taken over where it changed noticeably; one that
/// is not open is gone.
pub open spec fn note_order(n: Noticed, order: JsonView) -> Noticed {
    let id = order.text_or_empty("clOrdId"@);
    if !is_grid_order(order) {
        n
    } else if is_working(order) {
        if is_news(n.st, order) {
            Noticed {
                st: WsStateView {
                    orders: n.st.orders.insert(id, (remaining_size(order), order.amount_at("px"@))),
                    ..n.st
                },
                trigger: true,
            }
        } else {
            n
        }
    } else if n.st.orders.dom().contains(id) {
        Noticed { st: WsStateView { orders: n.st.orders.remove(id), ..n.st }, trigger: true }
    } else {
        n
    }
}

/// The orders of a message, one after another.
pub open spec fn note_orders(n: Noticed, items: Seq<JsonView>) -> Noticed
    decreases items.len(),
{
    if items.len() == 0 {
        n
    } else {
        note_order(note_orders(n, items.drop_last()), items.last())
    }
}

/// The last price of a ticker. A ticker without one, or with one that is not a number,
/// leaves no price: zero. One that says something else says nothing.
pub open spec fn note_ticker(n: Noticed, items: Seq<JsonView>) -> Noticed {
    if items.len() == 0 {
        n
    } else {
        match items[0].text_at("last"@) {
            None => Noticed { st: WsStateView { price: 0, ..n.st }, ..n },
            Some(t) => match amount_of(t) {
                Some(price) => Noticed { st: WsStateView { price, ..n.st }, ..n },
                None => if says_nan(t) {
                    Noticed { st: WsStateView { price: 0, ..n.st }, ..n }
                } else {
                    n
                },
            },
        }
    }
}

/// The channel that a message comes from.
pub open spec fn channel_of(message: JsonView) -> Seq<char> {
    match message.field("arg"@) {
        Some(arg) => arg.text_or_empty("channel"@),
        None => Seq::empty(),
    }
}

/// What a message does.
pub open spec fn note_message(st: WsStateView, message: JsonView) -> Noticed {
    let start = Noticed { st, trigger: false };
    match message.items_at("data"@) {
        None => start,
        Some(data) => {
            let n = if message.text_or_empty("op"@) == "cancel-batch-orders"@ {
                note_cancels(start, data)
            } else {
                start
            };
            if channel_of(message) == "tickers"@ {
                note_ticker(n, data)
            } else if channel_of(message) == "positions"@ {
                note_positions(n, data)
            } else if channel_of(message) == "orders"@ {
                note_orders(n, data)
            } else {
                n
            }
        },
    }
}

/// What a text that arrives does.
pub open spec fn note_text(st: WsStateView, text: Seq<char>) -> Noticed {
    if text == "pong"@ {
        Noticed { st, trigger: false }
    } else {
        note_message(st, document_or_empty(text))
    }
}

/// The amount without its sign.
fn without_sign(x: i128) -> (r: i128)
    requires
        in_range(x as int),
    ensures
        r == magnitude(x as int),
        0 <= r,
        in_range(r as int),
{
    if x < 0 {
        -x
    } else {
        x
    }
}

/// What an order in a message leaves to fill.
fn read_remaining(order: &Json) -> (r: i128)
    ensures
        r == remaining_size(order@),
        in_range(r as int),
{
    clamp_amount(order.amount_at("sz") - order.amount_at("accFillSz"))
}

/// Does the text begin as the grid's client order ids do?
pub fn has_id_mark(id: &str) -> (r: bool)
    ensures
        r == id_mark().is_prefix_of(id@),
{
    proof {
        reveal_strlit("NGB");
        assert("NGB"@ =~= id_mark());
    }
    starts_with(id, "NGB")
}

impl WsState {
    /// Positions are not negative, amounts are within the limits, and no order occurs
    /// twice.
    pub open spec fn wf(self) -> bool {
        &&& self.open_orders.wf()
        &&& in_range(self.price as int)
        &&& 0 <= self.pos_long && in_range(self.pos_long as int)
        &&& 0 <= self.pos_short && in_range(self.pos_short as int)
    }

    /// Takes over the positions that the exchange lists.
    pub fn load_positions(&mut self, answer: &Json)
        requires
            old(self).wf(),
        ensures
            final(self).wf(),
            final(self)@ == match answer@.items_at("data"@) {
                Some(items) => take_positions(old(self)@, items),
                None => old(self)@,
            },
    {
        let items = match answer.items_at("data") {
            Some(items) => items,
            None => {
                return;
            },
        };
        let ghost all = views(items@);
        let ghost start = self@;
        let mut i: usize = 0;
        while i < items.len()
            invariant
                self.wf(),
                i <= items@.len(),
                all == views(items@),
                self@ == take_positions(start, all.take(i as int)),
            decreases items@.len() - i,
        {
            let item = &items[i];
            let size = without_sign(item.amount_at("pos"));
            if item.has_text("posSide", "long") {
                self.pos_long = size;
            } else if item.has_text("posSide", "short") {
                self.pos_short = size;
            }
            i = i + 1;
            assert(all.take(i as int).drop_last() == all.take(i - 1));
        }
        assert(all.take(i as int) == all);
    }

    /// Takes over the grid's pending orders that the exchange lists.
    pub fn load_pending(&mut self, answer: &Json)
        requires
            old(self).wf(),
        ensures
            final(self).wf(),
            final(self)@ == match answer@.items_at("data"@) {
                Some(items) => take_all_pending(old(self)@, items),
                None => old(self)@,
            },
    {
        let items = match answer.items_at("data") {
            Some(items) => items,
            None => {
                return;
            },
        };
        let ghost all = views(items@);
        let ghost start = self@;
        let mut i: usize = 0;
        while i < items.len()
            invariant
                self.wf(),
                i <= items@.len(),
                all == views(items@),
                self@ == take_all_pending(start, all.take(i as int)),
            decreases items@.len() - i,
        {
            let order = &items[i];
            match order.text_at("clOrdId") {
                Some(id) => {
                    if has_id_mark(id) {
                        let size = read_remaining(order);
                        let price = order.amount_at("px");
                        self.open_orders.insert(id, size, price);
                    }
                },
                None => {},
            }
            i = i + 1;
            assert(all.take(i as int).drop_last() == all.take(i - 1));
        }
        assert(all.take(i as int) == all);
    }

    /// The answers to cancellations. Says whether something changed.
    pub fn apply_cancels(&mut self, items: &Vec<Json>) -> (trigger: bool)
        requires
            old(self).wf(),
        ensures
            final(self).wf(),
            (Noticed { st: final(self)@, trigger }) == note_cancels(
                Noticed { st: old(self)@, trigger: false },
                views(items@),
            ),
    {
        let ghost all = views(items@);
        let ghost start = Noticed { st: self@, trigger: false };
        let mut trigger = false;
        let mut i: usize = 0;
        while i < items.len()
            invariant
                self.wf(),
                i <= items@.len(),
                all == views(items@),
                (Noticed { st: self@, trigger }) == note_cancels(start, all.take(i as int)),
            decreases items@.len() - i,
        {
            let item = &items[i];
            let refused = match item.text_at("sCode") {
                Some(code) => !same_text(code, "0"),
                None => false,
            };
            if refused {
                match item.text_at("clOrdId") {
                    Some(id) => {
                        let ghost before = self@;
                        if self.open_orders.remove(id) {
                            trigger = true;
                        } else {
                            assert(self@.orders =~= before.orders);
                        }
                    },
                    None => {},
                }
            }
            i = i + 1;
            assert(all.take(i as int).drop_last() == all.take(i - 1));
        }
        assert(all.take(i as int) == all);
        trigger
    }

    /// The positions of a message. Says whether something changed.
    pub fn apply_positions(&mut self, items: &Vec<Json>) -> (trigger: bool)
        requires
            old(self).wf(),
        ensures
            final(self).wf(),
            (Noticed { st: final(self)@, trigger }) == note_positions(
                Noticed { st: old(self)@, trigger: false },
                views(items@),
            ),
    {
        let ghost all = views(items@);
        let ghost start = Noticed { st: self@, trigger: false };
        let mut trigger = false;
        let mut i: usize = 0;
        while i < items.len()
            invariant
                self.wf(),
                i <= items@.len(),
                all == views(items@),
                (Noticed { st: self@, trigger }) == note_positions(start, all.take(i as int)),
            decreases items@.len() - i,
        {
            let item = &items[i];
            let size = without_sign(item.amount_at("pos"));
            let unknown = match item.text_at("pos") {
                Some(t) => is_nan(t),
                None => false,
            };
            if !unknown {
                if item.has_text("posSide", "long") {
                    if apart(self.pos_long, size, NOTICE) {
                        self.pos_long = size;
                        trigger = true;
                    }
                } else if item.has_text("posSide", "short") {
                    if apart(self.pos_short, size, NOTICE) {
                        self.pos_short = size;
                        trigger = true;
                    }
                }
            }
            i = i + 1;
            assert(all.take(i as int).drop_last() == all.take(i - 1));
        }
        assert(all.take(i as int) == all);
        trigger
    }

    /// An order of a message. Says whether something changed.
    fn apply_order(&mut self, order: &Json) -> (trigger: bool)
        requires
            old(self).wf(),
        ensures
            final(self).wf(),
            final(self)@ == note_order(Noticed { st: old(self)@, trigger: false }, order@).st,
            trigger == note_order(Noticed { st: old(self)@, trigger: false }, order@).trigger,
    {
        let id = order.text_or_empty("clOrdId");
        if !has_id_mark(id) {
            return false;
        }
        let state = order.text_or_empty("state");
        if same_text(state, "live") || same_text(state, "partially_filled") {
            let size = read_remaining(order);
            let price = order.amount_at("px");
            let news = match self.open_orders.get(id) {
                Some((old_size, old_price)) => apart(old_size, size, NOTICE) || apart(
                    old_price,
                    price,
                    NOTICE,
                ),
                None => true,
            };
            if news {
                self.open_orders.insert(id, size, price);
            }
            news
        } else {
            let ghost before = self@;
            let found = self.open_orders.remove(id);
            assert(!found ==> self@.orders =~= before.orders);
            found
        }
    }

    /// The orders of a message. Says whether something changed.
    pub fn apply_orders(&mut self, items: &Vec<Json>) -> (trigger: bool)
        requires
            old(self).wf(),
        ensures
            final(self).wf(),
            (Noticed { st: final(self)@, trigger }) == note_orders(
                Noticed { st: old(self)@, trigger: false },
                views(items@),
            ),
    {
        let ghost all = views(items@);
        let ghost start = Noticed { st: self@, trigger: false };
        let mut trigger = false;
        let mut i: usize = 0;
        while i < items.len()
            invariant
                self.wf(),
                i <= items@.len(),
                all == views(items@),
                (Noticed { st: self@, trigger }) == note_orders(start, all.take(i as int)),
            decreases items@.len() - i,
        {
            if self.apply_order(&items[i]) {
                trigger = true;
            }
            i = i + 1;
            assert(all.take(i as int).drop_last() == all.take(i - 1));
        }
        assert(all.take(i as int) == all);
        trigger
    }

    /// The ticker of a message.
    pub fn apply_ticker(&mut self, items: &Vec<Json>)
        requires
            old(self).wf(),
        ensures
            final(self).wf(),
            final(self)@ == note_ticker(
                Noticed { st: old(self)@, trigger: false },
                views(items@),
            ).st,
    {
        if items.len() == 0 {
            return;
        }
        match items[0].text_at("last") {
            None => {
                self.price = 0;
            },
            Some(t) => match parse_amount(t) {
                Some(price) => {
                    self.price = price;
                },
                None => {
                    if is_nan(t) {
                        self.price = 0;
                    }
                },
            },
        }
    }

    /// A message. Says whether something changed that the grid must follow.
    pub fn apply_message(&mut self, message: &Json) -> (trigger: bool)
        requires
            old(self).wf(),
        ensures
            final(self).wf(),
            (Noticed { st: final(self)@, trigger }) == note_message(old(self)@, message@),
    {
        let data = match message.items_at("data") {
            Some(data) => data,
            None => {
                return false;
            },
        };
        let mut trigger = false;
        if same_text(message.text_or_empty("op"), "cancel-batch-orders") {
            trigger = self.apply_cancels(data);
        }
        let ghost n = Noticed { st: self@, trigger };
        proof {
            lemma_trigger_stays_positions(n, views(data@));
            lemma_trigger_stays_orders(n, views(data@));
            reveal_strlit("");
        }
        assert(""@ == Seq::<char>::empty());
        let channel: &str = match message.get("arg") {
            Some(arg) => arg.text_or_empty("channel"),
            None => "",
        };
        if same_text(channel, "tickers") {
            self.apply_ticker(data);
        } else if same_text(channel, "positions") {
            let more = self.apply_positions(data);
            trigger = trigger || more;
        } else if same_text(channel, "orders") {
            let more = self.apply_orders(data);
            trigger = trigger || more;
        }
        trigger
    }

    /// A text that arrives. Says whether something changed that the grid must follow.
    pub fn apply_text(&mut self, text: &str) -> (trigger: bool)
        requires
            old(self).wf(),
        ensures
            final(self).wf(),
            (Noticed { st: final(self)@, trigger }) == note_text(old(self)@, text@),
    {
        if same_text(text, "pong") {
            return false;
        }
        let message = parse_or_empty(text);
        self.apply_message(&message)
    }
}

/// What was noticed before makes no difference to what happens next.
proof fn lemma_trigger_stays_positions(n: Noticed, items: Seq<JsonView>)
    ensures
        note_positions(n, items).st == note_positions(Noticed { st: n.st, trigger: false }, items).st,
        note_positions(n, items).trigger == (n.trigger || note_positions(
            Noticed { st: n.st, trigger: false },
            items,
        ).trigger),
    decreases items.len(),
{
    if items.len() > 0 {
        lemma_trigger_stays_positions(n, items.drop_last());
    }
}

proof fn lemma_trigger_stays_orders(n: Noticed, items: Seq<JsonView>)
    ensures
        note_orders(n, items).st == note_orders(Noticed { st: n.st, trigger: false }, items).st,
        note_orders(n, items).trigger == (n.trigger || note_orders(
            Noticed { st: n.st, trigger: false },
            items,
        ).trigger),
    decreases items.len(),
{
    if items.len() > 0 {
        lemma_trigger_stays_orders(n, items.drop_last());
    }
}

/// Positions and orders of `after` are those of `before`.
pub open spec fn same_account(before: WsStateView, after: WsStateView) -> bool {
    &&& before.pos_long == after.pos_long
    &&& before.pos_short == after.pos_short
    &&& before.orders == after.orders
}

proof fn lemma_silent_cancels(n: Noticed, items: Seq<JsonView>)
    ensures
        n.trigger ==> note_cancels(n, items).trigger,
        !note_cancels(n, items).trigger ==> note_cancels(n, items) == n,
    decreases items.len(),
{
    if items.len() > 0 {
        lemma_silent_cancels(n, items.drop_last());
    }
}

proof fn lemma_silent_positions(n: Noticed, items: Seq<JsonView>)
    ensures
        n.trigger ==> note_positions(n, items).trigger,
        !note_positions(n, items).trigger ==> note_positions(n, items) == n,
    decreases items.len(),
{
    if items.len() > 0 {
        lemma_silent_positions(n, items.drop_last());
    }
}

proof fn lemma_silent_orders(n: Noticed, items: Seq<JsonView>)
    ensures
        n.trigger ==> note_orders(n, items).trigger,
        !note_orders(n, items).trigger ==> note_orders(n, items) == n,
    decreases items.len(),
{
    if items.len() > 0 {
        lemma_silent_orders(n, items.drop_last());
    }
}

/// No position and no order changes unnoticed: a text that triggers nothing leaves all of
/// them as they were.
pub proof fn law_no_change_goes_unnoticed(st: WsStateView, text: Seq<char>)
    ensures
        !note_text(st, text).trigger ==> same_account(st, note_text(st, text).st),
{
    let start = Noticed { st, trigger: false };
    let message = document_or_empty(text);
    if let Some(data) = message.items_at("data"@) {
        let n = if message.text_or_empty("op"@) == "cancel-batch-orders"@ {
            note_cancels(start, data)
        } else {
            start
        };
        lemma_silent_cancels(start, data);
        lemma_silent_positions(n, data);
        lemma_silent_orders(n, data);
    }
}

/// A position that is reported again changes nothing and triggers nothing.
pub proof fn law_repeated_position_is_no_news(n: Noticed, item: JsonView)
    ensures
        note_position(Noticed { trigger: false, ..note_position(n, item) }, item) == (Noticed {
            trigger: false,
            ..note_position(n, item)
        }),
{
}

/// An order that is reported again changes nothing and triggers nothing.
pub proof fn law_repeated_order_is_no_news(n: Noticed, order: JsonView)
    ensures
        note_order(Noticed { trigger: false, ..note_order(n, order) }, order) == (Noticed {
            trigger: false,
            ..note_order(n, order)
        }),
{
}

/// A refused cancellation that is reported again changes nothing and triggers nothing.
pub proof fn law_repeated_cancel_is_no_news(n: Noticed, item: JsonView)
    ensures
        note_cancel(Noticed { trigger: false, ..note_cancel(n, item) }, item) == (Noticed {
            trigger: false,
            ..note_cancel(n, item)
        }),
{
}

/// Orders that are not the grid's are never taken over: what was known of any other
/// client order id stays as it was.
pub proof fn law_foreign_orders_are_left_alone(n: Noticed, items: Seq<JsonView>, id: Seq<char>)
    requires
        !id_mark().is_prefix_of(id),
    ensures
        note_orders(n, items).st.orders.dom().contains(id) == n.st.orders.dom().contains(id),
        n.st.orders.dom().contains(id) ==> note_orders(n, items).st.orders[id]
            == n.st.orders[id],
        take_all_pending(n.st, items).orders.dom().contains(id) == n.st.orders.dom().contains(id),
        n.st.orders.dom().contains(id) ==> take_all_pending(n.st, items).orders[id]
            == n.st.orders[id],
    decreases items.len(),
{
    if items.len() > 0 {
        law_foreign_orders_are_left_alone(n, items.drop_last(), id);
    }
}

/// Every known order is one of the grid's.
pub open spec fn knows_only_grid_orders(st: WsStateView) -> bool {
    forall|id: Seq<char>| #[trigger] st.orders.dom().contains(id) ==> id_mark().is_prefix_of(id)
}

proof fn lemma_cancels_keep_to_the_grid(n: Noticed, items: Seq<JsonView>)
    requires
        knows_only_grid_orders(n.st),
    ensures
        knows_only_grid_orders(note_cancels(n, items).st),
    decreases items.len(),
{
    if items.len() > 0 {
        lemma_cancels_keep_to_the_grid(n, items.drop_last());
    }
}

proof fn lemma_positions_keep_to_the_grid(n: Noticed, items: Seq<JsonView>)
    requires
        knows_only_grid_orders(n.st),
    ensures
        knows_only_grid_orders(note_positions(n, items).st),
    decreases items.len(),
{
    if items.len() > 0 {
        lemma_positions_keep_to_the_grid(n, items.drop_last());
    }
}

proof fn lemma_orders_keep_to_the_grid(n: Noticed, items: Seq<JsonView>)
    requires
        knows_only_grid_orders(n.st),
    ensures
        knows_only_grid_orders(note_orders(n, items).st),
    decreases items.len(),
{
    if items.len() > 0 {
        lemma_orders_keep_to_the_grid(n, items.drop_last());
    }
}

/// Whatever text arrives, no order but the grid's becomes known.
pub proof fn law_only_grid_orders_become_known(st: WsStateView, text: Seq<char>)
    requires
        knows_only_grid_orders(st),
    ensures
        knows_only_grid_orders(note_text(st, text).st),
{
    let start = Noticed { st, trigger: false };
    let message = document_or_empty(text);
    if let Some(data) = message.items_at("data"@) {
        let n = if message.text_or_empty("op"@) == "cancel-batch-orders"@ {
            note_cancels(start, data)
        } else {
            start
        };
        lemma_cancels_keep_to_the_grid(start, data);
        lemma_positions_keep_to_the_grid(n, data);
        lemma_orders_keep_to_the_grid(n, data);
    }
}

/// A report of an order says nothing that is not known.
pub open spec fn is_known_order(st: WsStateView, order: JsonView) -> bool {
    !is_grid_order(order) || if is_working(order) {
        !is_news(st, order)
    } else {
        !st.orders.dom().contains(order.text_or_empty("clOrdId"@))
    }
}

/// No two reports of the grid's orders are of the same order.
pub open spec fn orders_differ(items: Seq<JsonView>) -> bool {
    forall|i: int, j: int|
        0 <= i < j < items.len() && is_grid_order(#[trigger] items[i]) && is_grid_order(
            #[trigger] items[j],
        ) ==> items[i].text_or_empty("clOrdId"@) != items[j].text_or_empty("clOrdId"@)
}

/// Is the item a position on one of the two sides?
pub open spec fn has_side(item: JsonView) -> bool {
    item.text_at("posSide"@) == Some("long"@) || item.text_at("posSide"@) == Some("short"@)
}

/// No two items are positions on the same side.
pub open spec fn sides_differ(items: Seq<JsonView>) -> bool {
    forall|i: int, j: int|
        0 <= i < j < items.len() && has_side(#[trigger] items[i]) && has_side(#[trigger] items[j])
            ==> items[i].text_at("posSide"@) != items[j].text_at("posSide"@)
}

proof fn lemma_orders_are_known(n: Noticed, items: Seq<JsonView>)
    requires
        orders_differ(items),
    ensures
        forall|i: int|
            0 <= i < items.len() ==> is_known_order(note_orders(n, items).st, #[trigger] items[i]),
    decreases items.len(),
{
    if items.len() > 0 {
        let front = items.drop_last();
        lemma_orders_are_known(n, front);
        let before = note_orders(n, front);
        let after = note_orders(n, items);
        assert forall|i: int| 0 <= i < items.len() implies is_known_order(
            after.st,
            #[trigger] items[i],
        ) by {
            if i < front.len() {
                assert(front[i] == items[i]);
                assert(is_known_order(before.st, front[i]));
                assert(items[items.len() - 1] == items.last());
            }
        }
    }
}

proof fn lemma_known_orders_change_nothing(st: WsStateView, items: Seq<JsonView>)
    requires
        forall|i: int| 0 <= i < items.len() ==> is_known_order(st, #[trigger] items[i]),
    ensures
        note_orders(Noticed { st, trigger: false }, items) == (Noticed { st, trigger: false }),
    decreases items.len(),
{
    if items.len() > 0 {
        let front = items.drop_last();
        assert forall|i: int| 0 <= i < front.len() implies is_known_order(
            st,
            #[trigger] front[i],
        ) by {
            assert(front[i] == items[i]);
        }
        lemma_known_orders_change_nothing(st, front);
        assert(is_known_order(st, items[items.len() - 1]));
    }
}

/// A position says nothing that is not known.
spec fn is_known_position(st: WsStateView, item: JsonView) -> bool {
    note_position(Noticed { st, trigger: false }, item) == (Noticed { st, trigger: false })
}

proof fn lemma_positions_are_known(n: Noticed, items: Seq<JsonView>)
    requires
        sides_differ(items),
    ensures
        forall|i: int|
            0 <= i < items.len() ==> is_known_position(
                note_positions(n, items).st,
                #[trigger] items[i],
            ),
    decreases items.len(),
{
    if items.len() > 0 {
        let front = items.drop_last();
        lemma_positions_are_known(n, front);
        let before = note_positions(n, front);
        let after = note_positions(n, items);
        assert forall|i: int| 0 <= i < items.len() implies is_known_position(
            after.st,
            #[trigger] items[i],
        ) by {
            if i < front.len() {
                assert(front[i] == items[i]);
                assert(is_known_position(before.st, front[i]));
                assert(items[items.len() - 1] == items.last());
                assert("long"@ != "short"@) by {
                    reveal_strlit("long");
                    reveal_strlit("short");
                    assert("long"@.len() != "short"@.len());
                }
            }
        }
    }
}

proof fn lemma_known_positions_change_nothing(st: WsStateView, items: Seq<JsonView>)
    requires
        forall|i: int| 0 <= i < items.len() ==> is_known_position(st, #[trigger] items[i]),
    ensures
        note_positions(Noticed { st, trigger: false }, items) == (Noticed { st, trigger: false }),
    decreases items.len(),
{
    if items.len() > 0 {
        let front = items.drop_last();
        assert forall|i: int| 0 <= i < front.len() implies is_known_position(
            st,
            #[trigger] front[i],
        ) by {
            assert(front[i] == items[i]);
        }
        lemma_known_positions_change_nothing(st, front);
        assert(is_known_position(st, items[items.len() - 1]));
    }
}

/// An answer to a cancellation is of an order that is not known, or is no refusal.
spec fn is_known_cancel(st: WsStateView, item: JsonView) -> bool {
    note_cancel(Noticed { st, trigger: false }, item) == (Noticed { st, trigger: false })
}

proof fn lemma_cancels_are_known(n: Noticed, items: Seq<JsonView>)
    ensures
        forall|i: int|
            0 <= i < items.len() ==> is_known_cancel(
                note_cancels(n, items).st,
                #[trigger] items[i],
            ),
    decreases items.len(),
{
    if items.len() > 0 {
        let front = items.drop_last();
        lemma_cancels_are_known(n, front);
        let before = note_cancels(n, front);
        let after = note_cancels(n, items);
        assert forall|i: int| 0 <= i < items.len() implies is_known_cancel(
            after.st,
            #[trigger] items[i],
        ) by {
            if i < front.len() {
                assert(front[i] == items[i]);
                assert(is_known_cancel(before.st, front[i]));
            }
        }
    }
}

proof fn lemma_known_cancels_change_nothing(st: WsStateView, items: Seq<JsonView>)
    requires
        forall|i: int| 0 <= i < items.len() ==> is_known_cancel(st, #[trigger] items[i]),
    ensures
        note_cancels(Noticed { st, trigger: false }, items) == (Noticed { st, trigger: false }),
    decreases items.len(),
{
    if items.len() > 0 {
        let front = items.drop_last();
        assert forall|i: int| 0 <= i < front.len() implies is_known_cancel(
            st,
            #[trigger] front[i],
        ) by {
            assert(front[i] == items[i]);
        }
        lemma_known_cancels_change_nothing(st, front);
        assert(is_known_cancel(st, items[items.len() - 1]));
    }
}

proof fn lemma_positions_keep_orders(n: Noticed, items: Seq<JsonView>)
    ensures
        note_positions(n, items).st.orders == n.st.orders,
    decreases items.len(),
{
    if items.len() > 0 {
        lemma_positions_keep_orders(n, items.drop_last());
    }
}

proof fn lemma_known_cancels_depend(a: WsStateView, b: WsStateView, items: Seq<JsonView>)
    requires
        a.orders == b.orders,
        forall|i: int| 0 <= i < items.len() ==> is_known_cancel(a, #[trigger] items[i]),
    ensures
        forall|i: int| 0 <= i < items.len() ==> is_known_cancel(b, #[trigger] items[i]),
{
    assert forall|i: int| 0 <= i < items.len() implies is_known_cancel(b, #[trigger] items[i]) by {
        assert(is_known_cancel(a, items[i]));
        let id = items[i].text_at("clOrdId"@);
        if id is Some && a.orders.dom().contains(id->0) {
            assert(a.orders.remove(id->0) != a.orders) by {
                assert(!a.orders.remove(id->0).dom().contains(id->0));
            }
        }
    }
}

/// A text that arrives again changes nothing and triggers nothing, where it names no order
/// and no side twice.
pub proof fn law_repeated_text_is_no_news(st: WsStateView, text: Seq<char>)
    requires
        document_or_empty(text).items_at("data"@) matches Some(data) ==> {
            &&& channel_of(document_or_empty(text)) == "orders"@ ==> orders_differ(data)
                && document_or_empty(text).text_or_empty("op"@) != "cancel-batch-orders"@
            &&& channel_of(document_or_empty(text)) == "positions"@ ==> sides_differ(data)
        },
    ensures
        note_text(note_text(st, text).st, text) == (Noticed {
            st: note_text(st, text).st,
            trigger: false,
        }),
{
    let message = document_or_empty(text);
    let once = note_text(st, text).st;
    let start = Noticed { st, trigger: false };
    reveal_strlit("orders");
    reveal_strlit("positions");
    reveal_strlit("tickers");
    assert("orders"@.len() == 6 && "positions"@.len() == 9 && "tickers"@.len() == 7);
    if let Some(data) = message.items_at("data"@) {
        let cancelled = message.text_or_empty("op"@) == "cancel-batch-orders"@;
        let n = if cancelled {
            note_cancels(start, data)
        } else {
            start
        };
        lemma_cancels_are_known(start, data);
        lemma_positions_keep_orders(n, data);
        if channel_of(message) == "tickers"@ {
            assert(note_ticker(n, data).st.orders == n.st.orders);
        }
        if cancelled && text != "pong"@ {
            assert(once.orders == n.st.orders);
            lemma_known_cancels_depend(n.st, once, data);
            lemma_known_cancels_change_nothing(once, data);
        }
        if channel_of(message) == "orders"@ {
            lemma_orders_are_known(n, data);
            if text != "pong"@ {
                lemma_known_orders_change_nothing(once, data);
            }
        } else if channel_of(message) == "positions"@ {
            lemma_positions_are_known(n, data);
            if text != "pong"@ {
                lemma_known_positions_change_nothing(once, data);
            }
        }
    }
}

/// An order of the grid that is reported in any state but `live` or `partially_filled` is
/// gone, whatever its sizes; that triggers where it was known. Nothing else changes.
pub proof fn law_closed_order_is_gone(n: Noticed, order: JsonView, id: Seq<char>, other: Seq<char>)
    requires
        order.text_at("clOrdId"@) == Some(id),
        id.len() >= 3,
        id[0] == 'N' && id[1] == 'G' && id[2] == 'B',
        order.text_at("state"@) != Some("live"@),
        order.text_at("state"@) != Some("partially_filled"@),
        other != id,
    ensures
        ({
            let r = note_order(n, order);
            &&& !r.st.orders.dom().contains(id)
            &&& r.trigger <==> n.trigger || n.st.orders.dom().contains(id)
            &&& r.st.orders.dom().contains(other) <==> n.st.orders.dom().contains(other)
            &&& n.st.orders.dom().contains(other) ==> r.st.orders[other] == n.st.orders[other]
            &&& r.st.price == n.st.price
            &&& r.st.pos_long == n.st.pos_long
            &&& r.st.pos_short == n.st.pos_short
        }),
{
    reveal_strlit("live");
    reveal_strlit("partially_filled");
    assert("live"@.len() == 4 && "partially_filled"@.len() == 16);
    assert(id_mark() =~= id.subrange(0, 3));
}

/// An order of the grid that is reported as `live` or `partially_filled` is known. It is
/// known with what is left of it and its price, but for a millionth; where both were known
/// that closely before, nothing changes and nothing is triggered. Nothing else changes.
pub proof fn law_open_order_is_known(n: Noticed, order: JsonView, id: Seq<char>, other: Seq<char>)
    requires
        order.text_at("clOrdId"@) == Some(id),
        id.len() >= 3,
        id[0] == 'N' && id[1] == 'G' && id[2] == 'B',
        order.text_at("state"@) == Some("live"@) || order.text_at("state"@) == Some(
            "partially_filled"@,
        ),
        in_range(order.amount_at("sz"@) - order.amount_at("accFillSz"@)),
        other != id,
    ensures
        ({
            let r = note_order(n, order);
            let left = order.amount_at("sz"@) - order.amount_at("accFillSz"@);
            let price = order.amount_at("px"@);
            let known = n.st.orders[id];
            let close = n.st.orders.dom().contains(id) && -10_000 <= known.0 - left <= 10_000
                && -10_000 <= known.1 - price <= 10_000;
            &&& r.st.orders.dom().contains(id)
            &&& close ==> r.st.orders[id] == known && r.trigger == n.trigger
            &&& !close ==> r.st.orders[id] == (left, price) && r.trigger
            &&& r.st.orders.dom().contains(other) <==> n.st.orders.dom().contains(other)
            &&& n.st.orders.dom().contains(other) ==> r.st.orders[other] == n.st.orders[other]
            &&& r.st.price == n.st.price
            &&& r.st.pos_long == n.st.pos_long
            &&& r.st.pos_short == n.st.pos_short
        }),
{
    assert(id_mark() =~= id.subrange(0, 3));
}

/// A report of an order that is not the grid's, or has no id, changes nothing.
pub proof fn law_foreign_report_is_ignored(n: Noticed, order: JsonView)
    requires
        order.text_at("clOrdId"@) matches Some(id) ==> id.len() < 3 || id[0] != 'N' || id[1] != 'G'
            || id[2] != 'B',
    ensures
        note_order(n, order) == n,
        take_pending(n.st, order) == n.st,
{
    if let Some(id) = order.text_at("clOrdId"@) {
        if id_mark().is_prefix_of(id) {
            assert(id_mark()[0] == id[0] && id_mark()[1] == id[1] && id_mark()[2] == id[2]);
        }
    }
}

/// A position report: the size counts without its sign; a change of more than a millionth
/// is taken over, on its side alone, and triggers; anything else changes nothing.
pub proof fn law_position_is_followed(n: Noticed, item: JsonView)
    ensures
        ({
            let r = note_position(n, item);
            let a = item.amount_at("pos"@);
            let size = if a < 0 {
                -a
            } else {
                a
            };
            let unknown = item.text_at("pos"@) matches Some(t) && says_nan(t);
            let long = item.text_at("posSide"@) == Some("long"@);
            let short = item.text_at("posSide"@) == Some("short"@);
            let moved_long = long && !unknown && (size - n.st.pos_long > 10_000 || n.st.pos_long
                - size > 10_000);
            let moved_short = short && !unknown && (size - n.st.pos_short > 10_000
                || n.st.pos_short - size > 10_000);
            &&& r.st.pos_long == if moved_long {
                size
            } else {
                n.st.pos_long
            }
            &&& r.st.pos_short == if moved_short {
                size
            } else {
                n.st.pos_short
            }
            &&& r.trigger <==> n.trigger || moved_long || moved_short
            &&& r.st.orders == n.st.orders
            &&& r.st.price == n.st.price
        }),
{
    reveal_strlit("long");
    reveal_strlit("short");
    assert("long"@.len() == 4 && "short"@.len() == 5);
}

/// An answer to a cancellation: where it is refused, the order is gone, and that triggers
/// where it was known; otherwise nothing changes.
pub proof fn law_refused_cancellation_removes(n: Noticed, item: JsonView, other: Seq<char>)
    ensures
        ({
            let r = note_cancel(n, item);
            let id = item.text_at("clOrdId"@);
            let code = item.text_at("sCode"@);
            let gone = id is Some && code is Some && code->0 != "0"@ && n.st.orders.dom().contains(
                id->0,
            );
            &&& r.trigger <==> n.trigger || gone
            &&& gone ==> !r.st.orders.dom().contains(id->0)
            &&& !gone ==> r == n
            &&& id != Some(other) ==> (r.st.orders.dom().contains(other)
                <==> n.st.orders.dom().contains(other)) && (n.st.orders.dom().contains(other)
                ==> r.st.orders[other] == n.st.orders[other])
            &&& r.st.price == n.st.price
            &&& r.st.pos_long == n.st.pos_long
            &&& r.st.pos_short == n.st.pos_short
        }),
{
}

/// A ticker sets the price to that of its first item and nothing else: to zero where it
/// has none or one that is not a number, and not at all where it cannot be read or there
/// is no item. It never triggers.
pub proof fn law_ticker_sets_the_price(n: Noticed, items: Seq<JsonView>)
    ensures
        ({
            let r = note_ticker(n, items);
            &&& items.len() == 0 ==> r == n
            &&& items.len() > 0 ==> match items[0].text_at("last"@) {
                None => r.st.price == 0,
                Some(t) => if says_nan(t) && amount_of(t) is None {
                    r.st.price == 0
                } else if amount_of(t) is None {
                    r.st.price == n.st.price
                } else {
                    Some(r.st.price) == amount_of(t)
                },
            }
            &&& r.trigger == n.trigger
            &&& r.st.orders == n.st.orders
            &&& r.st.pos_long == n.st.pos_long
            &&& r.st.pos_short == n.st.pos_short
        }),
{
}

/// Items are taken one after another.
pub proof fn law_items_are_taken_in_turn(n: Noticed, items: Seq<JsonView>, item: JsonView)
    ensures
        note_orders(n, Seq::empty()) == n,
        note_positions(n, Seq::empty()) == n,
        note_cancels(n, Seq::empty()) == n,
        take_positions(n.st, Seq::empty()) == n.st,
        take_all_pending(n.st, Seq::empty()) == n.st,
        note_orders(n, items.push(item)) == note_order(note_orders(n, items), item),
        note_positions(n, items.push(item)) == note_position(note_positions(n, items), item),
        note_cancels(n, items.push(item)) == note_cancel(note_cancels(n, items), item),
        take_positions(n.st, items.push(item)) == take_position(
            take_positions(n.st, items),
            item,
        ),
        take_all_pending(n.st, items.push(item)) == take_pending(
            take_all_pending(n.st, items),
            item,
        ),
{
    assert(items.push(item).drop_last() == items);
}

/// What a text does depends on its channel: only `tickers` moves the price, only
/// `positions` moves positions, only `orders` and answers to cancellations move orders. A
/// text without data, and the answer to a sign of life, do nothing.
pub proof fn law_channels_keep_apart(st: WsStateView, text: Seq<char>)
    ensures
        ({
            let message = document_or_empty(text);
            let r = note_text(st, text);
            let start = Noticed { st, trigger: false };
            let data = message.items_at("data"@);
            let channel = match message.field("arg"@) {
                Some(arg) => arg.text_at("channel"@),
                None => None,
            };
            let cancels = message.text_at("op"@) == Some("cancel-batch-orders"@);
            &&& text == "pong"@ ==> r == start
            &&& data is None ==> r == start
            &&& r.st.price != st.price ==> channel == Some("tickers"@)
            &&& r.st.pos_long != st.pos_long || r.st.pos_short != st.pos_short ==> channel == Some(
                "positions"@,
            )
            &&& r.st.orders != st.orders ==> cancels || channel == Some("orders"@)
            &&& text != "pong"@ && data is Some && !cancels && channel == Some("orders"@) ==> r
                == note_orders(start, data->0)
            &&& text != "pong"@ && data is Some && !cancels && channel == Some("positions"@)
                ==> r == note_positions(start, data->0)
            &&& text != "pong"@ && data is Some && !cancels && channel == Some("tickers"@) ==> r
                == note_ticker(start, data->0)
            &&& text != "pong"@ && data is Some && cancels && channel is None ==> r
                == note_cancels(start, data->0)
            &&& !cancels && channel is None ==> r == start
        }),
{
    let message = document_or_empty(text);
    let start = Noticed { st, trigger: false };
    reveal_strlit("orders");
    reveal_strlit("positions");
    reveal_strlit("tickers");
    reveal_strlit("cancel-batch-orders");
    assert("orders"@.len() == 6 && "positions"@.len() == 9 && "tickers"@.len() == 7);
    assert("cancel-batch-orders"@.len() == 19);
    if let Some(data) = message.items_at("data"@) {
        let n = if message.text_or_empty("op"@) == "cancel-batch-orders"@ {
            note_cancels(start, data)
        } else {
            start
        };
        lemma_cancels_keep_the_rest(start, data);
        lemma_positions_keep_orders(n, data);
        lemma_positions_keep_price(n, data);
        lemma_orders_keep_the_rest(n, data);
    }
}

proof fn lemma_cancels_keep_the_rest(n: Noticed, items: Seq<JsonView>)
    ensures
        note_cancels(n, items).st.price == n.st.price,
        note_cancels(n, items).st.pos_long == n.st.pos_long,
        note_cancels(n, items).st.pos_short == n.st.pos_short,
    decreases items.len(),
{
    if items.len() > 0 {
        lemma_cancels_keep_the_rest(n, items.drop_last());
    }
}

proof fn lemma_orders_keep_the_rest(n: Noticed, items: Seq<JsonView>)
    ensures
        note_orders(n, items).st.price == n.st.price,
        note_orders(n, items).st.pos_long == n.st.pos_long,
        note_orders(n, items).st.pos_short == n.st.pos_short,
    decreases items.len(),
{
    if items.len() > 0 {
        lemma_orders_keep_the_rest(n, items.drop_last());
    }
}

proof fn lemma_positions_keep_price(n: Noticed, items: Seq<JsonView>)
    ensures
        note_positions(n, items).st.price == n.st.price,
    decreases items.len(),
{
    if items.len() > 0 {
        lemma_positions_keep_price(n, items.drop_last());
    }
}

/// A listed position replaces what was known of its side; the size counts without its
/// sign. A listed order of the grid becomes known with what is left of it and its price.
/// Nothing else changes.
pub proof fn law_listed_items_are_taken_over(
    st: WsStateView,
    item: JsonView,
    id: Seq<char>,
    other: Seq<char>,
)
    requires
        other != id,
    ensures
        ({
            let r = take_position(st, item);
            let a = item.amount_at("pos"@);
            let size = if a < 0 {
                -a
            } else {
                a
            };
            &&& r.pos_long == if item.text_at("posSide"@) == Some("long"@) {
                size
            } else {
                st.pos_long
            }
            &&& r.pos_short == if item.text_at("posSide"@) == Some("short"@) {
                size
            } else {
                st.pos_short
            }
            &&& r.orders == st.orders && r.price == st.price
        }),
        item.text_at("clOrdId"@) == Some(id) && id.len() >= 3 && id[0] == 'N' && id[1] == 'G'
            && id[2] == 'B' ==> {
            let r = take_pending(st, item);
            let left = item.amount_at("sz"@) - item.amount_at("accFillSz"@);
            &&& r.orders.dom().contains(id)
            &&& in_range(left) ==> r.orders[id].0 == left
            &&& r.orders[id].1 == item.amount_at("px"@)
            &&& r.orders.dom().contains(other) <==> st.orders.dom().contains(other)
            &&& st.orders.dom().contains(other) ==> r.orders[other] == st.orders[other]
            &&& r.price == st.price && r.pos_long == st.pos_long && r.pos_short == st.pos_short
        },
{
    reveal_strlit("long");
    reveal_strlit("short");
    assert("long"@.len() == 4 && "short"@.len() == 5);
    if id.len() >= 3 && id[0] == 'N' && id[1] == 'G' && id[2] == 'B' {
        assert(id_mark() =~= id.subrange(0, 3));
    }
}

/// The state is seen as it is held, and nothing is known at first.
pub proof fn law_state_is_seen_as_held(st: WsState)
    ensures
        st@.price == st.price,
        st@.pos_long == st.pos_long,
        st@.pos_short == st.pos_short,
        st@.orders == st.open_orders@,
        nothing_known().price == 0,
        nothing_known().pos_long == 0,
        nothing_known().pos_short == 0,
        forall|id: Seq<char>| !(#[trigger] nothing_known().orders.dom().contains(id)),
{
}

/// An answer to cancellations is taken over first, then what its channel says of the same
/// data; a channel of another name adds nothing.
pub proof fn law_answer_then_channel(st: WsStateView, text: Seq<char>, channel: Seq<char>)
    requires
        text != "pong"@,
        document_or_empty(text).items_at("data"@) is Some,
        document_or_empty(text).field("arg"@) matches Some(arg) && arg.text_at("channel"@) == Some(
            channel,
        ),
    ensures
        ({
            let message = document_or_empty(text);
            let data = message.items_at("data"@)->0;
            let start = Noticed { st, trigger: false };
            let n = if message.text_at("op"@) == Some("cancel-batch-orders"@) {
                note_cancels(start, data)
            } else {
                start
            };
            let r = note_text(st, text);
            &&& channel == "orders"@ ==> r == note_orders(n, data)
            &&& channel == "positions"@ ==> r == note_positions(n, data)
            &&& channel == "tickers"@ ==> r == note_ticker(n, data)
            &&& channel != "orders"@ && channel != "positions"@ && channel != "tickers"@ ==> r == n
        }),
{
    reveal_strlit("orders");
    reveal_strlit("positions");
    reveal_strlit("tickers");
    reveal_strlit("cancel-batch-orders");
    assert("orders"@.len() == 6 && "positions"@.len() == 9 && "tickers"@.len() == 7);
    assert("cancel-batch-orders"@.len() == 19);
}

}
