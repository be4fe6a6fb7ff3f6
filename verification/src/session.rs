//! The trading session: logging in, subscribing, placing and cancelling orders, and what
//! to do about each thing that happens.
use crate::json::{
    document_or_empty, json_text, law_first_field_counts, list, parse_or_empty, render_json, views,
    Fields, Json, JsonView,
};
use crate::models::{OrderCommand, PosSide, Side, WsCommand};
use crate::okx::{operation, operation_message, pos_side_name, pos_side_str};
use crate::state::{law_no_change_goes_unnoticed, note_text, WsState, WsStateView};
use vstd::prelude::*;

verus! {

/// A message carries at most this many orders or ids.
pub const BATCH: usize = 20;

/// Does the message say that the session is logged in?
pub open spec fn is_login(message: JsonView) -> bool {
    message.text_at("event"@) == Some("login"@) && message.text_at("code"@) == Some("0"@)
}

/// Does the message say that the session is logged in?
pub fn says_login(message: &Json) -> (r: bool)
    ensures
        r == is_login(message@),
{
    message.has_text("event", "login") && message.has_text("code", "0")
}

/// What comes in over the connection.
pub enum Frame {
    /// A text.
    Text(String),
    /// Anything else that is no error.
    Other,
    /// The connection is closed, or broken.
    Closed,
}

/// What to do while the session is not logged in.
#[derive(Clone, Copy, Debug, PartialEq, Eq, Structural)]
pub enum LoginStep {
    /// Wait for the next frame.
    Wait,
    /// The session is logged in.
    Done,
    /// The connection was lost.
    Lost,
}

/// What the loss of the connection while logging in is reported as.
pub fn login_lost() -> (s: &'static str)
    ensures
        s@ == "WS disconnected during login"@,
{
    "WS disconnected during login"
}

/// What to do about a frame while the session is not logged in.
pub fn login_step(frame: &Frame) -> (step: LoginStep)
    ensures
        step == match frame {
            Frame::Text(text) => if is_login(document_or_empty(text@)) {
                LoginStep::Done
            } else {
                LoginStep::Wait
            },
            Frame::Other => LoginStep::Wait,
            Frame::Closed => LoginStep::Lost,
        },
{
    match frame {
        Frame::Text(text) => if says_login(&parse_or_empty(text.as_str())) {
            LoginStep::Done
        } else {
            LoginStep::Wait
        },
        Frame::Other => LoginStep::Wait,
        Frame::Closed => LoginStep::Lost,
    }
}

/// The channel of an instrument among the swaps.
pub open spec fn swap_channel(channel: Seq<char>, symbol: Seq<char>) -> JsonView {
    JsonView::Record(
        seq![
            ("channel"@, JsonView::Text(channel)),
            ("instType"@, JsonView::Text("SWAP"@)),
            ("instId"@, JsonView::Text(symbol)),
        ],
    )
}

/// The ticker channel of an instrument.
pub open spec fn ticker_channel(symbol: Seq<char>) -> JsonView {
    JsonView::Record(
        seq![("channel"@, JsonView::Text("tickers"@)), ("instId"@, JsonView::Text(symbol))],
    )
}

/// The message that subscribes to the orders, the positions and the ticker of an
/// instrument.
pub open spec fn subscription(symbol: Seq<char>) -> JsonView {
    operation(
        "subscribe"@,
        seq![
            swap_channel("orders"@, symbol),
            swap_channel("positions"@, symbol),
            ticker_channel(symbol),
        ],
    )
}

fn swap_argument(channel: &str, symbol: &str) -> (r: Json)
    ensures
        r@ == swap_channel(channel@, symbol@),
{
    let fields = Fields::new().text("channel", channel).text("instType", "SWAP").text(
        "instId",
        symbol,
    );
    assert(fields@ == swap_channel(channel@, symbol@)->Record_0);
    fields.record()
}

/// Writes the message that subscribes to the orders, the positions and the ticker of an
/// instrument.
pub fn subscribe_message(symbol: &str) -> (text: String)
    ensures
        text@ == json_text(subscription(symbol@)),
{
    let ticker = Fields::new().text("channel", "tickers").text("instId", symbol);
    assert(ticker@ == ticker_channel(symbol@)->Record_0);
    let mut args: Vec<Json> = Vec::new();
    args.push(swap_argument("orders", symbol));
    args.push(swap_argument("positions", symbol));
    args.push(ticker.record());
    assert(views(args@) == seq![
        swap_channel("orders"@, symbol@),
        swap_channel("positions"@, symbol@),
        ticker_channel(symbol@),
    ]);
    operation_message("subscribe", args)
}

/// The name of a side.
pub open spec fn side_name(side: Side) -> Seq<char> {
    match side {
        Side::Buy => "buy"@,
        Side::Sell => "sell"@,
    }
}

/// The name of a side.
pub fn side_str(side: Side) -> (s: &'static str)
    ensures
        s@ == side_name(side),
{
    match side {
        Side::Buy => "buy",
        Side::Sell => "sell",
    }
}

/// An order to place, as the exchange takes it.
pub open spec fn order_argument(symbol: Seq<char>, c: OrderCommand) -> JsonView {
    JsonView::Record(
        seq![
            ("instId"@, JsonView::Text(symbol)),
            ("tdMode"@, JsonView::Text("cross"@)),
            ("side"@, JsonView::Text(side_name(c.side))),
            ("posSide"@, JsonView::Text(pos_side_name(c.pos_side))),
            ("ordType"@, JsonView::Text("post_only"@)),
            ("px"@, JsonView::Text(c.price@)),
            ("sz"@, JsonView::Text(c.size@)),
            ("clOrdId"@, JsonView::Text(c.cl_ord_id@)),
        ],
    )
}

/// An order to cancel, as the exchange takes it.
pub open spec fn cancel_argument(symbol: Seq<char>, id: Seq<char>) -> JsonView {
    JsonView::Record(
        seq![("instId"@, JsonView::Text(symbol)), ("clOrdId"@, JsonView::Text(id))],
    )
}

/// The orders or ids of a command, as the exchange takes them.
pub open spec fn arguments(command: WsCommand, symbol: Seq<char>) -> Seq<JsonView> {
    match command {
        WsCommand::Place(orders) => Seq::new(
            orders@.len(),
            |i: int| order_argument(symbol, orders@[i]),
        ),
        WsCommand::Cancel(ids) => Seq::new(
            ids@.len(),
            |i: int| cancel_argument(symbol, ids@[i]@),
        ),
    }
}

/// The operation that a command asks for.
pub open spec fn operation_name(command: WsCommand) -> Seq<char> {
    match command {
        WsCommand::Place(_) => "batch-orders"@,
        WsCommand::Cancel(_) => "cancel-batch-orders"@,
    }
}

/// A sequence cut into pieces of `size`, the last of which may be shorter.
pub open spec fn pieces<T>(s: Seq<T>, size: int) -> Seq<Seq<T>>
    decreases s.len(),
{
    if s.len() == 0 || size <= 0 {
        Seq::empty()
    } else if s.len() <= size {
        seq![s]
    } else {
        seq![s.take(size)] + pieces(s.skip(size), size)
    }
}

/// What a list of batches says.
pub open spec fn batch_views(batches: Seq<Vec<Json>>) -> Seq<Seq<JsonView>> {
    Seq::new(batches.len(), |i: int| views(batches[i]@))
}

fn place_argument(symbol: &str, c: &OrderCommand) -> (r: Json)
    ensures
        r@ == order_argument(symbol@, *c),
{
    let fields = Fields::new().text("instId", symbol).text("tdMode", "cross").text(
        "side",
        side_str(c.side),
    ).text("posSide", pos_side_str(c.pos_side)).text("ordType", "post_only").text(
        "px",
        c.price.as_str(),
    ).text("sz", c.size.as_str()).text("clOrdId", c.cl_ord_id.as_str());
    assert(fields@ == order_argument(symbol@, *c)->Record_0);
    fields.record()
}

fn withdraw_argument(symbol: &str, id: &str) -> (r: Json)
    ensures
        r@ == cancel_argument(symbol@, id@),
{
    let fields = Fields::new().text("instId", symbol).text("clOrdId", id);
    assert(fields@ == cancel_argument(symbol@, id@)->Record_0);
    fields.record()
}

/// Lists the orders or ids of a command, as the exchange takes them.
fn list_arguments(command: &WsCommand, symbol: &str) -> (r: Vec<Json>)
    ensures
        views(r@) == arguments(*command, symbol@),
{
    let ghost all = arguments(*command, symbol@);
    let mut r: Vec<Json> = Vec::new();
    match command {
        WsCommand::Place(orders) => {
            let mut i: usize = 0;
            while i < orders.len()
                invariant
                    i <= orders@.len(),
                    *command == WsCommand::Place(*orders),
                    all == arguments(*command, symbol@),
                    views(r@) == all.take(i as int),
                decreases orders@.len() - i,
            {
                let ghost before = r@;
                r.push(place_argument(symbol, &orders[i]));
                assert(views(r@) == views(before).push(all[i as int]));
                i = i + 1;
                assert(all.take(i as int) == all.take(i - 1).push(all[i - 1]));
            }
        },
        WsCommand::Cancel(ids) => {
            let mut i: usize = 0;
            while i < ids.len()
                invariant
                    i <= ids@.len(),
                    *command == WsCommand::Cancel(*ids),
                    all == arguments(*command, symbol@),
                    views(r@) == all.take(i as int),
                decreases ids@.len() - i,
            {
                let ghost before = r@;
                r.push(withdraw_argument(symbol, ids[i].as_str()));
                assert(views(r@) == views(before).push(all[i as int]));
                i = i + 1;
                assert(all.take(i as int) == all.take(i - 1).push(all[i - 1]));
            }
        },
    }
    assert(all.take(all.len() as int) == all);
    r
}

/// Cuts the orders or ids of a command into batches.
pub fn batches(command: &WsCommand, symbol: &str) -> (r: Vec<Vec<Json>>)
    ensures
        batch_views(r@) == pieces(arguments(*command, symbol@), BATCH as int),
{
    let mut rest = list_arguments(command, symbol);
    let ghost all = views(rest@);
    let mut r: Vec<Vec<Json>> = Vec::new();
    assert(batch_views(r@) + pieces(all, BATCH as int) == pieces(all, BATCH as int));
    while rest.len() > BATCH
        invariant
            pieces(all, BATCH as int) == batch_views(r@) + pieces(views(rest@), BATCH as int),
        decreases rest@.len(),
    {
        let ghost before = views(rest@);
        let ghost done = r@;
        let tail = rest.split_off(BATCH);
        assert(views(rest@) == before.take(BATCH as int));
        assert(views(tail@) == before.skip(BATCH as int));
        r.push(rest);
        assert(batch_views(r@) == batch_views(done).push(before.take(BATCH as int)));
        rest = tail;
        assert(batch_views(r@) + pieces(views(rest@), BATCH as int) == batch_views(done) + pieces(
            before,
            BATCH as int,
        ));
    }
    if rest.len() > 0 {
        let ghost done = r@;
        let ghost last = views(rest@);
        r.push(rest);
        assert(batch_views(r@) == batch_views(done).push(last));
    }
    r
}

/// The message that asks for one batch.
pub open spec fn batch_document(
    command: WsCommand,
    args: Seq<JsonView>,
    stamp: Seq<char>,
) -> JsonView {
    JsonView::Record(
        seq![
            ("id"@, JsonView::Text(stamp)),
            ("op"@, JsonView::Text(operation_name(command))),
            ("args"@, JsonView::List(args)),
        ],
    )
}

/// Writes the message that asks for one batch of a command at the time `stamp`.
pub fn batch_message(command: &WsCommand, args: Vec<Json>, stamp: &str) -> (text: String)
    ensures
        text@ == json_text(batch_document(*command, views(args@), stamp@)),
{
    let op: &str = match command {
        WsCommand::Place(_) => "batch-orders",
        WsCommand::Cancel(_) => "cancel-batch-orders",
    };
    let fields = Fields::new().text("id", stamp).text("op", op).value("args", list(args));
    assert(fields@ == batch_document(*command, views(args@), stamp@)->Record_0);
    render_json(&fields.record())
}

/// What happens while the session runs.
pub enum SessionEvent {
    /// It is time for a sign of life.
    PingDue,
    /// Something is asked for, or nobody is left who could ask.
    Command(Option<WsCommand>),
    /// Something comes in over the connection.
    Arrived(Frame),
}

/// What to do about it.
pub enum SessionStep {
    /// Nothing.
    Continue,
    /// Send a text.
    Send(&'static str),
    /// Send each batch of a command.
    SendBatches(WsCommand, Vec<Vec<Json>>),
    /// Tell that something changed that the grid must follow.
    Notify,
    /// End the session.
    Stop,
}

/// Is `step` what the session does about `event`, and `after` what it knows then?
pub open spec fn is_step(
    before: WsStateView,
    symbol: Seq<char>,
    event: SessionEvent,
    after: WsStateView,
    step: SessionStep,
) -> bool {
    match event {
        SessionEvent::PingDue => after == before && (step matches SessionStep::Send(text)
            && text@ == "ping"@),
        SessionEvent::Command(None) => after == before && step is Stop,
        SessionEvent::Command(Some(command)) => {
            &&& after == before
            &&& step matches SessionStep::SendBatches(sent, args)
            &&& sent == command
            &&& batch_views(args@) == pieces(arguments(command, symbol), BATCH as int)
        },
        SessionEvent::Arrived(Frame::Text(text)) => {
            let n = note_text(before, text@);
            &&& after == n.st
            &&& if n.trigger {
                step is Notify
            } else {
                step is Continue
            }
        },
        SessionEvent::Arrived(Frame::Other) => after == before && step is Continue,
        SessionEvent::Arrived(Frame::Closed) => after == before && step is Stop,
    }
}

/// What the session does about an event.
pub fn session_step(state: &mut WsState, symbol: &str, event: SessionEvent) -> (step: SessionStep)
    requires
        old(state).wf(),
    ensures
        final(state).wf(),
        is_step(old(state)@, symbol@, event, final(state)@, step),
{
    match event {
        SessionEvent::PingDue => SessionStep::Send("ping"),
        SessionEvent::Command(None) => SessionStep::Stop,
        SessionEvent::Command(Some(command)) => {
            let args = batches(&command, symbol);
            SessionStep::SendBatches(command, args)
        },
        SessionEvent::Arrived(Frame::Text(text)) => {
            let trigger = state.apply_text(text.as_str());
            if trigger {
                SessionStep::Notify
            } else {
                SessionStep::Continue
            }
        },
        SessionEvent::Arrived(Frame::Other) => SessionStep::Continue,
        SessionEvent::Arrived(Frame::Closed) => SessionStep::Stop,
    }
}

/// All pieces, one behind the other.
pub open spec fn joined<T>(parts: Seq<Seq<T>>) -> Seq<T>
    decreases parts.len(),
{
    if parts.len() == 0 {
        Seq::empty()
    } else {
        parts[0] + joined(parts.skip(1))
    }
}

proof fn lemma_pieces<T>(s: Seq<T>, size: int)
    requires
        size > 0,
    ensures
        joined(pieces(s, size)) == s,
        forall|i: int|
            0 <= i < pieces(s, size).len() ==> 1 <= (#[trigger] pieces(s, size)[i]).len() <= size,
        forall|i: int|
            0 <= i < pieces(s, size).len() - 1 ==> (#[trigger] pieces(s, size)[i]).len() == size,
    decreases s.len(),
{
    let p = pieces(s, size);
    if s.len() == 0 {
    } else if s.len() <= size {
        assert(p.skip(1) == Seq::<Seq<T>>::empty());
        assert(joined(p.skip(1)) == Seq::<T>::empty());
        assert(p[0] + Seq::<T>::empty() == s);
    } else {
        let rest = pieces(s.skip(size), size);
        lemma_pieces(s.skip(size), size);
        assert(p.skip(1) == rest);
        assert(s.take(size) + s.skip(size) == s);
        assert forall|i: int| 0 <= i < p.len() implies 1 <= (#[trigger] p[i]).len() <= size by {
            if i > 0 {
                assert(p[i] == rest[i - 1]);
            }
        }
        assert forall|i: int| 0 <= i < p.len() - 1 implies (#[trigger] p[i]).len() == size by {
            if i > 0 {
                assert(p[i] == rest[i - 1]);
            }
        }
    }
}

/// The batches of a command carry all that it asks for, once and in order. None is empty,
/// none carries more than the exchange takes, and all but the last are full.
pub proof fn law_batches_carry_everything(command: WsCommand, symbol: Seq<char>)
    ensures
        ({
            let args = arguments(command, symbol);
            let parts = pieces(args, BATCH as int);
            &&& joined(parts) == args
            &&& forall|i: int| 0 <= i < parts.len() ==> 1 <= (#[trigger] parts[i]).len() <= BATCH
            &&& forall|i: int| 0 <= i < parts.len() - 1 ==> (#[trigger] parts[i]).len() == BATCH
        }),
{
    lemma_pieces(arguments(command, symbol), BATCH as int);
}

/// The argument of an order to place: it names the instrument and the id, carries price
/// and size as they are given, and says `sell` exactly for a sale, `buy` exactly for a
/// purchase, `long` exactly for the long side and `short` exactly for the short side. It
/// is a post-only order with cross margin.
pub proof fn law_order_argument_says_the_order(symbol: Seq<char>, c: OrderCommand)
    ensures
        ({
            let arg = order_argument(symbol, c);
            &&& arg.text_at("side"@) == Some("sell"@) <==> c.side == Side::Sell
            &&& arg.text_at("side"@) == Some("buy"@) <==> c.side == Side::Buy
            &&& arg.text_at("posSide"@) == Some("long"@) <==> c.pos_side == PosSide::Long
            &&& arg.text_at("posSide"@) == Some("short"@) <==> c.pos_side == PosSide::Short
            &&& arg.text_at("px"@) == Some(c.price@)
            &&& arg.text_at("sz"@) == Some(c.size@)
            &&& arg.text_at("clOrdId"@) == Some(c.cl_ord_id@)
            &&& arg.text_at("instId"@) == Some(symbol)
            &&& arg.text_at("tdMode"@) == Some("cross"@)
            &&& arg.text_at("ordType"@) == Some("post_only"@)
        }),
{
    let fields = order_argument(symbol, c)->Record_0;
    reveal_strlit("instId");
    reveal_strlit("tdMode");
    reveal_strlit("side");
    reveal_strlit("posSide");
    reveal_strlit("ordType");
    reveal_strlit("px");
    reveal_strlit("sz");
    reveal_strlit("clOrdId");
    reveal_strlit("buy");
    reveal_strlit("sell");
    reveal_strlit("long");
    reveal_strlit("short");
    assert("buy"@.len() == 3 && "sell"@.len() == 4);
    assert("long"@.len() == 4 && "short"@.len() == 5);
    assert("instId"@.len() == 6 && "instId"@[0] == 'i');
    assert("tdMode"@.len() == 6 && "tdMode"@[0] == 't');
    assert("side"@.len() == 4);
    assert("posSide"@.len() == 7 && "posSide"@[0] == 'p');
    assert("ordType"@.len() == 7 && "ordType"@[0] == 'o');
    assert("px"@.len() == 2 && "px"@[0] == 'p');
    assert("sz"@.len() == 2 && "sz"@[0] == 's');
    assert("clOrdId"@.len() == 7 && "clOrdId"@[0] == 'c');
    law_first_field_counts(fields, "instId"@, 0);
    law_first_field_counts(fields, "tdMode"@, 1);
    law_first_field_counts(fields, "side"@, 2);
    law_first_field_counts(fields, "posSide"@, 3);
    law_first_field_counts(fields, "ordType"@, 4);
    law_first_field_counts(fields, "px"@, 5);
    law_first_field_counts(fields, "sz"@, 6);
    law_first_field_counts(fields, "clOrdId"@, 7);
}

/// The argument of an order to cancel names the instrument and the id, and nothing else.
pub proof fn law_cancel_argument_says_the_id(symbol: Seq<char>, id: Seq<char>)
    ensures
        cancel_argument(symbol, id).text_at("instId"@) == Some(symbol),
        cancel_argument(symbol, id).text_at("clOrdId"@) == Some(id),
        cancel_argument(symbol, id) matches JsonView::Record(fields) && fields.len() == 2,
{
    let fields = cancel_argument(symbol, id)->Record_0;
    reveal_strlit("instId");
    reveal_strlit("clOrdId");
    assert("instId"@.len() == 6 && "clOrdId"@.len() == 7);
    law_first_field_counts(fields, "instId"@, 0);
    law_first_field_counts(fields, "clOrdId"@, 1);
}

/// A command asks for each of its orders or ids, in order, and for the operation that
/// fits.
pub proof fn law_arguments_follow_the_command(command: WsCommand, symbol: Seq<char>, i: int)
    ensures
        match command {
            WsCommand::Place(orders) => {
                let args = arguments(command, symbol);
                &&& operation_name(command) == "batch-orders"@
                &&& args.len() == orders@.len()
                &&& 0 <= i < orders@.len() ==> args[i].text_at("clOrdId"@) == Some(
                    orders@[i].cl_ord_id@,
                ) && args[i].text_at("px"@) == Some(orders@[i].price@) && args[i].text_at("sz"@)
                    == Some(orders@[i].size@) && (args[i].text_at("side"@) == Some("sell"@)
                    <==> orders@[i].side == Side::Sell) && (args[i].text_at("posSide"@) == Some(
                    "short"@,
                ) <==> orders@[i].pos_side == PosSide::Short)
            },
            WsCommand::Cancel(ids) => {
                let args = arguments(command, symbol);
                &&& operation_name(command) == "cancel-batch-orders"@
                &&& args.len() == ids@.len()
                &&& 0 <= i < ids@.len() ==> args[i].text_at("clOrdId"@) == Some(ids@[i]@)
                    && args[i].text_at("instId"@) == Some(symbol)
            },
        },
{
    match command {
        WsCommand::Place(orders) => {
            if 0 <= i < orders@.len() {
                law_order_argument_says_the_order(symbol, orders@[i]);
            }
        },
        WsCommand::Cancel(ids) => {
            if 0 <= i < ids@.len() {
                law_cancel_argument_says_the_id(symbol, ids@[i]@);
            }
        },
    }
}

/// The message of a batch carries the time, the operation and the arguments.
pub proof fn law_batch_says_what_is_asked(
    command: WsCommand,
    args: Seq<JsonView>,
    stamp: Seq<char>,
)
    ensures
        ({
            let message = batch_document(command, args, stamp);
            &&& message.text_at("id"@) == Some(stamp)
            &&& message.items_at("args"@) == Some(args)
            &&& message.text_at("op"@) == Some("batch-orders"@) <==> command is Place
            &&& message.text_at("op"@) == Some("cancel-batch-orders"@) <==> command is Cancel
        }),
{
    let fields = batch_document(command, args, stamp)->Record_0;
    reveal_strlit("id");
    reveal_strlit("op");
    reveal_strlit("args");
    reveal_strlit("batch-orders");
    reveal_strlit("cancel-batch-orders");
    assert("id"@[0] == 'i' && "op"@[0] == 'o' && "args"@[0] == 'a');
    assert("batch-orders"@.len() == 12 && "cancel-batch-orders"@.len() == 19);
    law_first_field_counts(fields, "id"@, 0);
    law_first_field_counts(fields, "op"@, 1);
    law_first_field_counts(fields, "args"@, 2);
}

/// A batch has at most twenty arguments, and all but the last have exactly twenty; one
/// behind the other they are the arguments of the command.
pub proof fn law_argument_is_in_its_batch(command: WsCommand, symbol: Seq<char>, i: int)
    requires
        0 <= i < arguments(command, symbol).len(),
    ensures
        ({
            let args = arguments(command, symbol);
            let parts = pieces(args, BATCH as int);
            &&& 0 <= i / 20 < parts.len()
            &&& 0 <= i % 20 < parts[i / 20].len() <= 20
            &&& parts[i / 20][i % 20] == args[i]
            &&& 20 * (parts.len() - 1) < args.len() <= 20 * parts.len()
        }),
{
    lemma_piece(arguments(command, symbol), i);
}

proof fn lemma_piece<T>(s: Seq<T>, i: int)
    requires
        0 <= i < s.len(),
    ensures
        ({
            let parts = pieces(s, 20);
            &&& 0 <= i / 20 < parts.len()
            &&& 0 <= i % 20 < parts[i / 20].len() <= 20
            &&& parts[i / 20][i % 20] == s[i]
            &&& 20 * (parts.len() - 1) < s.len() <= 20 * parts.len()
        }),
    decreases s.len(),
{
    let parts = pieces(s, 20);
    if s.len() > 20 {
        let rest = pieces(s.skip(20), 20);
        assert(parts.len() == rest.len() + 1);
        if i >= 20 {
            lemma_piece(s.skip(20), i - 20);
            assert(parts[i / 20] == rest[i / 20 - 1]);
            assert((i - 20) / 20 == i / 20 - 1 && (i - 20) % 20 == i % 20);
        } else {
            lemma_piece(s.skip(20), 0);
            assert(parts[0] == s.take(20));
        }
    } else {
        assert(parts[0] == s);
    }
}

/// The session is logged in exactly where the message says so: the event is `login` and
/// the code is `0`.
pub proof fn law_login_is_what_the_message_says(message: JsonView)
    ensures
        is_login(message) <==> message.field("event"@) == Some(JsonView::Text("login"@))
            && message.field("code"@) == Some(JsonView::Text("0"@)),
{
}

/// The subscription names the orders, the positions and the ticker of the instrument.
pub proof fn law_subscription_names_the_channels(symbol: Seq<char>)
    ensures
        ({
            let message = subscription(symbol);
            let args = message.items_at("args"@)->0;
            &&& message.text_at("op"@) == Some("subscribe"@)
            &&& message.items_at("args"@) is Some && args.len() == 3
            &&& args[0].text_at("channel"@) == Some("orders"@)
            &&& args[1].text_at("channel"@) == Some("positions"@)
            &&& args[2].text_at("channel"@) == Some("tickers"@)
            &&& args[0].text_at("instType"@) == Some("SWAP"@)
            &&& args[1].text_at("instType"@) == Some("SWAP"@)
            &&& forall|i: int| 0 <= i < 3 ==> (#[trigger] args[i]).text_at("instId"@) == Some(symbol)
        }),
{
    reveal_strlit("op");
    reveal_strlit("args");
    reveal_strlit("channel");
    reveal_strlit("instType");
    reveal_strlit("instId");
    assert("op"@.len() == 2 && "args"@.len() == 4);
    assert("channel"@.len() == 7 && "instType"@.len() == 8 && "instId"@.len() == 6);
    let fields = subscription(symbol)->Record_0;
    law_first_field_counts(fields, "op"@, 0);
    law_first_field_counts(fields, "args"@, 1);
    let orders = swap_channel("orders"@, symbol)->Record_0;
    let positions = swap_channel("positions"@, symbol)->Record_0;
    let ticker = ticker_channel(symbol)->Record_0;
    law_first_field_counts(orders, "channel"@, 0);
    law_first_field_counts(orders, "instType"@, 1);
    law_first_field_counts(orders, "instId"@, 2);
    law_first_field_counts(positions, "channel"@, 0);
    law_first_field_counts(positions, "instType"@, 1);
    law_first_field_counts(positions, "instId"@, 2);
    law_first_field_counts(ticker, "channel"@, 0);
    law_first_field_counts(ticker, "instId"@, 1);
}

/// What the session does: a sign of life when it is due, every order or id of a command,
/// an end where nobody asks any more or the connection is gone, and a notice exactly where
/// a text changed a position or an order.
pub proof fn law_session_steps(
    before: WsStateView,
    symbol: Seq<char>,
    event: SessionEvent,
    after: WsStateView,
    step: SessionStep,
)
    requires
        is_step(before, symbol, event, after, step),
    ensures
        event is PingDue ==> after == before && (step matches SessionStep::Send(text) && text@
            == "ping"@),
        event matches SessionEvent::Command(None) ==> step is Stop && after == before,
        event matches SessionEvent::Command(Some(command)) ==> after == before && (step matches
            SessionStep::SendBatches(sent, args) && sent == command && joined(batch_views(args@))
            == arguments(command, symbol)),
        event matches SessionEvent::Arrived(Frame::Closed) ==> step is Stop && after == before,
        event matches SessionEvent::Arrived(Frame::Other) ==> step is Continue && after == before,
        event matches SessionEvent::Arrived(Frame::Text(text)) ==> {
            &&& after == note_text(before, text@).st
            &&& step is Notify <==> note_text(before, text@).trigger
            &&& step is Notify || step is Continue
            &&& before.pos_long != after.pos_long || before.pos_short != after.pos_short
                || before.orders != after.orders ==> step is Notify
        },
{
    if let SessionEvent::Command(Some(command)) = event {
        law_batches_carry_everything(command, symbol);
    }
    if let SessionEvent::Arrived(Frame::Text(text)) = event {
        law_no_change_goes_unnoticed(before, text@);
    }
}

}
