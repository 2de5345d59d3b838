//! The exchange book over a sequence of requests.

use super::accounts::{
    fills_quantity_of, lemma_fills_quantity_of_all, lemma_left_of, lemma_rest_accounts,
    lemma_sweep_accounts, lemma_withdraw_accounts,
};
use super::laws::{
    fills_quantity, law_best_price_first, law_ids_are_new, law_kept_totals_are_what_rests,
    law_limit_order_is_reproducible, law_market_order_is_reproducible,
    law_market_order_never_rests, law_order_rests_where_the_index_says,
    law_order_trades_what_is_within_reach, law_totals_are_reproducible,
};
use super::model::Book;
use super::soundness::{
    lemma_cancel_keeps_well_formed, lemma_limit_keeps_well_formed, lemma_market_keeps_well_formed,
    lemma_number_keeps_well_formed, lemma_resting_order_has_a_place,
    lemma_sweep_keeps_well_formed,
};
use super::tape::Fill;
use crate::book_side::unstamped_levels;
use crate::ladder::depth;
use crate::price_level::{lemma_place_is_one, queue_quantity, Level};
use crate::tally::{
    lemma_resting_quantity_of_all, lemma_total_remove, queue_quantity_of, resting_quantity_of,
};
use crate::types::{OrderBookError, OrderId, Price, Quantity, Side};
use vstd::prelude::*;

verus! {

/// Something that is asked of a book.
pub enum Request {
    Limit { side: Side, price: Price, quantity: Quantity, timestamp: u64 },
    Market { side: Side, quantity: Quantity, timestamp: u64 },
    Cancel { order_id: OrderId },
}

impl Request {
    /// Whether this is an order that is accepted.
    pub open spec fn is_accepted(self) -> bool {
        match self {
            Request::Limit { price, quantity, .. } => price > 0 && quantity > 0,
            Request::Market { quantity, .. } => quantity > 0,
            Request::Cancel { .. } => false,
        }
    }
}

impl Book {
    /// The book after a request.
    pub open spec fn after(self, request: Request) -> Book {
        match request {
            Request::Limit { side, price, quantity, timestamp } => if request.is_accepted() {
                self.after_limit(side, price, quantity, timestamp)
            } else {
                self
            },
            Request::Market { side, quantity, timestamp } => if request.is_accepted() {
                self.after_market(side, quantity, timestamp)
            } else {
                self
            },
            Request::Cancel { order_id } => self.after_cancel(order_id),
        }
    }

    /// The trades that a request brings about.
    pub open spec fn fills_of(self, request: Request) -> Seq<Fill> {
        match request {
            Request::Limit { side, price, quantity, timestamp } => if request.is_accepted() {
                self.limit_sweep(side, price, quantity, timestamp).fills
            } else {
                Seq::empty()
            },
            Request::Market { side, quantity, timestamp } => if request.is_accepted() {
                self.market_sweep(side, quantity, timestamp).fills
            } else {
                Seq::empty()
            },
            Request::Cancel { .. } => Seq::empty(),
        }
    }

    /// The book after some requests, one after the other.
    pub open spec fn after_all(self, requests: Seq<Request>) -> Book
        decreases requests.len(),
    {
        if requests.len() == 0 {
            self
        } else {
            self.after_all(requests.drop_last()).after(requests.last())
        }
    }

    /// The trades that some requests bring about, one after the other.
    pub open spec fn fills_of_all(self, requests: Seq<Request>) -> Seq<Fill>
        decreases requests.len(),
    {
        if requests.len() == 0 {
            Seq::empty()
        } else {
            self.fills_of_all(requests.drop_last()) + self.after_all(
                requests.drop_last(),
            ).fills_of(requests.last())
        }
    }

    /// Whether there are ids for so many more orders.
    pub open spec fn has_ids_for(self, n: nat) -> bool {
        self.next_order_id + n <= u64::MAX
    }
}

/// How many of the requests are orders that are accepted.
pub open spec fn count_accepted(requests: Seq<Request>) -> nat
    decreases requests.len(),
{
    if requests.len() == 0 {
        0
    } else {
        count_accepted(requests.drop_last()) + if requests.last().is_accepted() {
            1nat
        } else {
            0
        }
    }
}

/// A request keeps the book well formed.
pub proof fn lemma_after_keeps_well_formed(book: Book, request: Request)
    requires
        book.well_formed(),
        book.has_ids_for(1),
    ensures
        book.after(request).well_formed(),
        book.after(request).next_order_id == book.next_order_id + if request.is_accepted() {
            1int
        } else {
            0
        },
{
    match request {
        Request::Limit { side, price, quantity, timestamp } => {
            if request.is_accepted() {
                lemma_limit_keeps_well_formed(book, side, price, quantity, timestamp);
            }
        },
        Request::Market { side, quantity, timestamp } => {
            lemma_market_keeps_well_formed(book, side, quantity, timestamp);
        },
        Request::Cancel { order_id } => {
            lemma_cancel_keeps_well_formed(book, order_id);
        },
    }
}

/// Law: what holds of a book at any time holds after any requests. The id that
/// the next order gets has gone up by one with each accepted order.
pub proof fn law_requests_keep_the_book_well_formed(book: Book, requests: Seq<Request>)
    requires
        book.well_formed(),
        book.has_ids_for(requests.len()),
    ensures
        book.after_all(requests).well_formed(),
        book.after_all(requests).next_order_id == book.next_order_id + count_accepted(requests),
        count_accepted(requests) <= requests.len(),
    decreases requests.len(),
{
    if requests.len() > 0 {
        law_requests_keep_the_book_well_formed(book, requests.drop_last());
        lemma_after_keeps_well_formed(book.after_all(requests.drop_last()), requests.last());
    }
}

impl Book {
    /// The book that has handed out so many more order ids.
    pub open spec fn numbered_times(self, n: nat) -> Book
        decreases n,
    {
        if n == 0 {
            self
        } else {
            self.numbered_times((n - 1) as nat).numbered()
        }
    }
}

/// Law: a new book that has handed out `n` ids hands out `n + 1` next, so the
/// ids that it hands out are 1, 2, 3 and so on. Nothing else changes meanwhile.
pub proof fn law_handed_out_ids_count_up(n: nat)
    requires
        n < u64::MAX,
    ensures
        Book::empty().numbered_times(n).next_order_id == n + 1,
        Book::empty().numbered_times(n) == (Book {
            next_order_id: (n + 1) as u64,
            ..Book::empty()
        }),
    decreases n,
{
    if n > 0 {
        law_handed_out_ids_count_up((n - 1) as nat);
    }
}

/// The id that a new book gives to the order among `requests` at position `i`,
/// if it is accepted.
pub open spec fn id_given(requests: Seq<Request>, i: int) -> OrderId {
    Book::empty().after_all(requests.take(i)).next_order_id
}

/// Whether a new book gives `id` to one of the orders among `requests`.
pub open spec fn is_given(requests: Seq<Request>, id: OrderId) -> bool {
    exists|i: int|
        0 <= i < requests.len() && requests[i].is_accepted() && #[trigger] id_given(requests, i)
            == id
}

/// Law: a new book numbers the orders that it accepts from one upwards. The ids
/// of `n` accepted orders are the numbers from 1 to `n`, and of two of them the
/// later one has the greater id.
pub proof fn law_ids_count_up(requests: Seq<Request>)
    requires
        requests.len() < u64::MAX,
    ensures
        forall|i: int|
            0 <= i < requests.len() ==> #[trigger] id_given(requests, i) == 1 + count_accepted(
                requests.take(i),
            ),
        forall|i: int, j: int|
            0 <= i < j < requests.len() && requests[i].is_accepted() ==> #[trigger] id_given(
                requests,
                i,
            ) < #[trigger] id_given(requests, j),
        forall|id: OrderId| #[trigger]
            is_given(requests, id) <==> 1 <= id <= count_accepted(requests),
    decreases requests.len(),
{
    lemma_empty_is_well_formed();
    assert forall|i: int| 0 <= i < requests.len() implies #[trigger] id_given(requests, i) == 1
        + count_accepted(requests.take(i)) by {
        law_requests_keep_the_book_well_formed(Book::empty(), requests.take(i));
    }
    if requests.len() > 0 {
        let fewer = requests.drop_last();
        let last = requests.len() - 1;
        law_ids_count_up(fewer);
        assert forall|i: int| 0 <= i < fewer.len() implies #[trigger] id_given(requests, i)
            == id_given(fewer, i) by {
            assert(requests.take(i) =~= fewer.take(i));
        }
        assert(requests.take(last) =~= fewer);
        assert(id_given(requests, last) == 1 + count_accepted(fewer));
        assert forall|i: int, j: int|
            0 <= i < j < requests.len() && requests[i].is_accepted() implies #[trigger] id_given(
            requests,
            i,
        ) < #[trigger] id_given(requests, j) by {
            assert(fewer[i] == requests[i]);
            assert(id_given(requests, i) == id_given(fewer, i));
            assert(is_given(fewer, id_given(fewer, i)));
            if j < last {
                assert(id_given(requests, j) == id_given(fewer, j));
            }
        }
        assert forall|id: OrderId| #[trigger] is_given(requests, id) <==> 1 <= id
            <= count_accepted(requests) by {
            if is_given(requests, id) {
                let i = choose|i: int|
                    0 <= i < requests.len() && requests[i].is_accepted() && #[trigger] id_given(
                        requests,
                        i,
                    ) == id;
                if i < last {
                    assert(fewer[i] == requests[i]);
                    assert(id_given(fewer, i) == id);
                    assert(is_given(fewer, id));
                }
            }
            if 1 <= id <= count_accepted(fewer) {
                assert(is_given(fewer, id));
                let i = choose|i: int|
                    0 <= i < fewer.len() && fewer[i].is_accepted() && #[trigger] id_given(fewer, i)
                        == id;
                assert(id_given(requests, i) == id);
            } else if 1 <= id <= count_accepted(requests) {
                assert(id_given(requests, last) == id);
            }
        }
    }
}

/// A new book is well formed.
pub proof fn lemma_empty_is_well_formed()
    ensures
        Book::empty().well_formed(),
{
}

/// What a limit order does to the quantities that orders with some ids have
/// resting.
proof fn lemma_limit_accounts(
    book: Book,
    side: Side,
    price: Price,
    quantity: Quantity,
    timestamp: u64,
    ids: Set<OrderId>,
)
    requires
        book.well_formed(),
        book.has_ids_for(1),
        price > 0,
        quantity > 0,
    ensures
        ({
            let sweep = book.limit_sweep(side, price, quantity, timestamp);
            let after = book.after_limit(side, price, quantity, timestamp);
            let left = sweep.taker.remaining_quantity;
            &&& resting_quantity_of(after.side(side.other()), ids) + fills_quantity_of(
                sweep.fills,
                ids,
            ) == resting_quantity_of(book.side(side.other()), ids)
            &&& resting_quantity_of(after.side(side), ids) == resting_quantity_of(
                book.side(side),
                ids,
            ) + if ids.contains(book.next_order_id) {
                left as nat
            } else {
                0
            }
            &&& left + fills_quantity(sweep.fills) == quantity
            &&& after.index.dom() == if left > 0 {
                book.index.dom().insert(book.next_order_id)
            } else {
                book.index.dom()
            }
        }),
{
    let taker = book.limit_order(side, price, quantity, timestamp);
    let sweep = book.limit_sweep(side, price, quantity, timestamp);
    let swept = book.numbered().swept(sweep);
    lemma_sweep_accounts(book, taker, Some(price), ids);
    lemma_sweep_keeps_well_formed(book, taker, Some(price));
    law_order_trades_what_is_within_reach(book, taker, Some(price));
    lemma_number_keeps_well_formed(book);
    assert(book.numbered().sweep(taker, Some(price)) == sweep);
    lemma_sweep_keeps_well_formed(book.numbered(), taker, Some(price));
    assert(swept.side(side) == book.side(side));
    assert(swept.side(side.other()) == sweep.levels);
    assert(sweep.index.dom() =~= book.index.dom());
    if sweep.taker.remaining_quantity > 0 {
        lemma_rest_accounts(swept, sweep.taker, ids);
        let alone = seq![sweep.taker];
        assert(alone.drop_first() =~= Seq::empty());
        assert(queue_quantity_of(alone.drop_first(), ids) == 0);
        assert(swept.rested(sweep.taker).index.dom() =~= book.index.dom().insert(
            book.next_order_id,
        ));
    }
}

/// What a market order does to them.
proof fn lemma_market_accounts(
    book: Book,
    side: Side,
    quantity: Quantity,
    timestamp: u64,
    ids: Set<OrderId>,
)
    requires
        book.well_formed(),
    ensures
        ({
            let sweep = book.market_sweep(side, quantity, timestamp);
            let after = book.after_market(side, quantity, timestamp);
            &&& resting_quantity_of(after.side(side.other()), ids) + fills_quantity_of(
                sweep.fills,
                ids,
            ) == resting_quantity_of(book.side(side.other()), ids)
            &&& after.side(side) == book.side(side)
            &&& after.index.dom() == book.index.dom()
        }),
{
    let taker = book.market_order(side, quantity, timestamp);
    let sweep = book.market_sweep(side, quantity, timestamp);
    lemma_sweep_accounts(book, taker, None, ids);
    lemma_sweep_keeps_well_formed(book, taker, None);
    assert(sweep.index.dom() =~= book.index.dom());
}

/// What a request to cancel does to them.
proof fn lemma_cancel_accounts(book: Book, order_id: OrderId, side: Side, ids: Set<OrderId>)
    requires
        book.well_formed(),
    ensures
        resting_quantity_of(book.side(side), ids) == resting_quantity_of(
            book.after_cancel(order_id).side(side),
            ids,
        ) + if ids.contains(order_id) {
            book.called_off_by(Request::Cancel { order_id }, side)
        } else {
            0
        },
{
    if book.cancellable(order_id) {
        lemma_resting_order_has_a_place(book, order_id);
        let (s, price, _) = book.index[order_id];
        let level = book.side(s)[price];
        let place = level.place_of(order_id);
        lemma_withdraw_accounts(book, s, price, place, ids);
        let alone = seq![level.orders[place]];
        assert(alone.drop_first() =~= Seq::empty());
        assert(queue_quantity_of(alone.drop_first(), ids) == 0);
    }
}

impl Request {
    /// The quantity that this request brings to `side` as an accepted limit
    /// order.
    pub open spec fn brings(self, side: Side) -> nat {
        match self {
            Request::Limit { side: own, quantity, .. } => if self.is_accepted() && own == side {
                quantity as nat
            } else {
                0
            },
            _ => 0,
        }
    }
}

impl Book {
    /// The quantity that limit orders of `side` trade when `request` comes in,
    /// as the incoming order or as those that rest.
    pub open spec fn traded_by(self, request: Request, side: Side) -> nat {
        match request {
            Request::Market { side: own, .. } => if own == side {
                0
            } else {
                fills_quantity(self.fills_of(request))
            },
            _ => fills_quantity(self.fills_of(request)),
        }
    }

    /// The quantity that is cancelled on `side` when `request` comes in.
    pub open spec fn called_off_by(self, request: Request, side: Side) -> nat {
        match request {
            Request::Cancel { order_id } => if self.cancellable(order_id)
                && self.index[order_id].0 == side {
                self.cancel_answer(order_id)->Ok_0 as nat
            } else {
                0
            },
            _ => 0,
        }
    }

    /// All that requests trade of the limit orders of `side`.
    pub open spec fn traded_by_all(self, requests: Seq<Request>, side: Side) -> nat
        decreases requests.len(),
    {
        if requests.len() == 0 {
            0
        } else {
            self.traded_by_all(requests.drop_last(), side) + self.after_all(
                requests.drop_last(),
            ).traded_by(requests.last(), side)
        }
    }

    /// All that requests cancel on `side`.
    pub open spec fn called_off_by_all(self, requests: Seq<Request>, side: Side) -> nat
        decreases requests.len(),
    {
        if requests.len() == 0 {
            0
        } else {
            self.called_off_by_all(requests.drop_last(), side) + self.after_all(
                requests.drop_last(),
            ).called_off_by(requests.last(), side)
        }
    }
}

/// All that requests bring to `side`.
pub open spec fn brought_by_all(requests: Seq<Request>, side: Side) -> nat
    decreases requests.len(),
{
    if requests.len() == 0 {
        0
    } else {
        brought_by_all(requests.drop_last(), side) + requests.last().brings(side)
    }
}

/// Law: what rests on a side grows by what a request brings to it, and shrinks
/// by what it trades and cancels there.
pub proof fn law_request_balances(book: Book, request: Request, side: Side)
    requires
        book.well_formed(),
        book.has_ids_for(1),
    ensures
        book.after(request).resting(side) + book.traded_by(request, side) + book.called_off_by(
            request,
            side,
        ) == book.resting(side) + request.brings(side),
{
    let ids = Set::<OrderId>::full();
    let after = book.after(request);
    lemma_after_keeps_well_formed(book, request);
    lemma_resting_quantity_of_all(book.side(side));
    lemma_resting_quantity_of_all(after.side(side));
    lemma_fills_quantity_of_all(book.fills_of(request));
    match request {
        Request::Limit { side: own, price, quantity, timestamp } => {
            if request.is_accepted() {
                lemma_limit_accounts(book, own, price, quantity, timestamp, ids);
            }
        },
        Request::Market { side: own, quantity, timestamp } => {
            if request.is_accepted() {
                lemma_market_accounts(book, own, quantity, timestamp, ids);
            }
        },
        Request::Cancel { order_id } => {
            lemma_cancel_accounts(book, order_id, side, ids);
        },
    }
}

/// Law: a market order trades the smaller one of its quantity and what rests on
/// the other side.
pub proof fn law_market_order_trades_all_it_can(
    book: Book,
    side: Side,
    quantity: Quantity,
    timestamp: u64,
)
    requires
        book.well_formed(),
        book.has_ids_for(1),
        quantity > 0,
    ensures
        ({
            let sweep = book.market_sweep(side, quantity, timestamp);
            let rests = book.resting(side.other());
            &&& fills_quantity(sweep.fills) + sweep.taker.remaining_quantity == quantity
            &&& fills_quantity(sweep.fills) == if rests <= quantity {
                rests
            } else {
                quantity as nat
            }
        }),
{
    let taker = book.market_order(side, quantity, timestamp);
    let sweep = book.market_sweep(side, quantity, timestamp);
    law_order_trades_what_is_within_reach(book, taker, None);
    law_request_balances(book, Request::Market { side, quantity, timestamp }, side.other());
    if sweep.taker.remaining_quantity > 0 {
        lemma_sweep_keeps_well_formed(book, taker, None);
        assert(sweep.levels.dom() =~= Set::empty());
    }
}

/// Law: what rests on a side of a new book after any requests is what its limit
/// orders brought, less what they traded, less what was cancelled of them. If
/// that can be written down as a quantity, it is the total that the book tells.
pub proof fn law_total_is_what_came_and_did_not_go(requests: Seq<Request>, side: Side)
    requires
        requests.len() < u64::MAX,
    ensures
        ({
            let book = Book::empty();
            let after = book.after_all(requests);
            &&& after.resting(side) + book.traded_by_all(requests, side) + book.called_off_by_all(
                requests,
                side,
            ) == brought_by_all(requests, side)
            &&& after.resting(side) <= u64::MAX ==> depth(after.side(side)) == after.resting(side)
        }),
    decreases requests.len(),
{
    let book = Book::empty();
    let after = book.after_all(requests);
    lemma_empty_is_well_formed();
    law_requests_keep_the_book_well_formed(book, requests);
    if requests.len() > 0 {
        let fewer = requests.drop_last();
        law_total_is_what_came_and_did_not_go(fewer, side);
        law_requests_keep_the_book_well_formed(book, fewer);
        law_request_balances(book.after_all(fewer), requests.last(), side);
    } else {
        assert(book.side(side).dom() =~= Set::empty());
    }
    if after.resting(side) <= u64::MAX {
        let levels = after.side(side);
        let size = |level: Level| queue_quantity(level.orders);
        assert forall|price: Price| #[trigger] levels.contains_key(price) implies queue_quantity(
            levels[price].orders,
        ) <= u64::MAX by {
            lemma_total_remove(levels, size, price);
        }
        law_kept_totals_are_what_rests(after, side);
    }
}

/// Where an order stands, as its history tells.
pub enum Standing {
    /// It was never issued, never came to rest, or was cancelled.
    Unknown,
    /// It rests, with so much left of it.
    Open { left: nat },
    /// It rested and was filled.
    Done,
}

/// Where order `order_id` of a new book stands after some requests, as told by
/// the trades alone.
pub open spec fn standing(requests: Seq<Request>, order_id: OrderId) -> Standing
    decreases requests.len(),
{
    if requests.len() == 0 {
        Standing::Unknown
    } else {
        let fewer = requests.drop_last();
        let request = requests.last();
        let fills = Book::empty().after_all(fewer).fills_of(request);
        let traded = fills_quantity_of(fills, set![order_id]);
        let before = standing(fewer, order_id);
        if request == (Request::Cancel { order_id }) {
            if before is Open {
                Standing::Unknown
            } else {
                before
            }
        } else if request.is_accepted() && order_id == 1 + count_accepted(fewer) {
            match request {
                Request::Limit { quantity, .. } => if fills_quantity(fills) < quantity {
                    Standing::Open { left: (quantity - fills_quantity(fills)) as nat }
                } else {
                    Standing::Unknown
                },
                _ => Standing::Unknown,
            }
        } else {
            match before {
                Standing::Open { left } => if traded < left {
                    Standing::Open { left: (left - traded) as nat }
                } else {
                    Standing::Done
                },
                _ => before,
            }
        }
    }
}

/// What a request does to an order that is not the one it submits.
pub proof fn lemma_after_leaves(book: Book, request: Request, order_id: OrderId)
    requires
        book.well_formed(),
        book.has_ids_for(1),
        request != (Request::Cancel { order_id }),
        request.is_accepted() ==> order_id != book.next_order_id,
    ensures
        book.after(request).left_of(order_id) + fills_quantity_of(
            book.fills_of(request),
            set![order_id],
        ) == book.left_of(order_id),
        book.after(request).index.contains_key(order_id) == book.index.contains_key(order_id),
{
    let ids = set![order_id];
    match request {
        Request::Limit { side, price, quantity, timestamp } => {
            if request.is_accepted() {
                lemma_limit_accounts(book, side, price, quantity, timestamp, ids);
                let after = book.after(request);
                assert(after.index.dom().contains(order_id) == book.index.dom().contains(order_id));
            }
        },
        Request::Market { side, quantity, timestamp } => {
            if request.is_accepted() {
                lemma_market_accounts(book, side, quantity, timestamp, ids);
                let after = book.after(request);
                assert(after.index.dom().contains(order_id) == book.index.dom().contains(order_id));
            }
        },
        Request::Cancel { order_id: other } => {
            lemma_cancel_accounts(book, other, Side::Bid, ids);
            lemma_cancel_accounts(book, other, Side::Ask, ids);
            if book.cancellable(other) {
                lemma_resting_order_has_a_place(book, other);
            }
        },
    }
}

/// Law: what a request to cancel is answered follows from the history of the
/// order. An id that was never issued, belongs to a market order or to an order
/// that was filled on entry or cancelled is not found; a resting order that was
/// filled cannot be cancelled any more; any other limit order can, and what is
/// left of it is what it brought, less what it traded.
pub proof fn law_cancel_is_answered_by_history(requests: Seq<Request>, order_id: OrderId)
    requires
        requests.len() < u64::MAX,
    ensures
        Book::empty().after_all(requests).cancel_answer(order_id) == match standing(
            requests,
            order_id,
        ) {
            Standing::Unknown => Err::<Quantity, _>(OrderBookError::OrderNotFound(order_id)),
            Standing::Open { left } => Ok(left as u64),
            Standing::Done => Err(OrderBookError::AlreadyCancelled(order_id)),
        },
        standing(requests, order_id) matches Standing::Open { left } ==> 0 < left <= u64::MAX,
{
    lemma_standing(requests, order_id);
    lemma_empty_is_well_formed();
    law_requests_keep_the_book_well_formed(Book::empty(), requests);
    lemma_left_of(Book::empty().after_all(requests), order_id);
}

proof fn lemma_standing(requests: Seq<Request>, order_id: OrderId)
    requires
        requests.len() < u64::MAX,
    ensures
        ({
            let book = Book::empty().after_all(requests);
            match standing(requests, order_id) {
                Standing::Unknown => !book.index.contains_key(order_id),
                Standing::Open { left } => book.cancellable(order_id) && book.left_of(order_id)
                    == left,
                Standing::Done => book.index.contains_key(order_id) && !book.cancellable(order_id),
            }
        }),
    decreases requests.len(),
{
    lemma_empty_is_well_formed();
    if requests.len() > 0 {
        let fewer = requests.drop_last();
        let request = requests.last();
        let book = Book::empty().after_all(fewer);
        let after = book.after(request);
        let ids = set![order_id];
        lemma_standing(fewer, order_id);
        law_requests_keep_the_book_well_formed(Book::empty(), fewer);
        lemma_after_keeps_well_formed(book, request);
        lemma_left_of(book, order_id);
        lemma_left_of(after, order_id);
        if request == (Request::Cancel { order_id }) {
            if book.cancellable(order_id) {
                lemma_resting_order_has_a_place(book, order_id);
            }
        } else if request.is_accepted() && order_id == 1 + count_accepted(fewer) {
            law_ids_are_new(book, Side::Bid, 1, order_id);
            match request {
                Request::Limit { side, price, quantity, timestamp } => {
                    lemma_limit_accounts(book, side, price, quantity, timestamp, ids);
                    assert(after.index.dom().contains(order_id) == after.index.contains_key(
                        order_id,
                    ));
                },
                Request::Market { side, quantity, timestamp } => {
                    lemma_market_accounts(book, side, quantity, timestamp, ids);
                    assert(after.index.dom().contains(order_id) == after.index.contains_key(
                        order_id,
                    ));
                },
                Request::Cancel { .. } => {},
            }
        } else {
            lemma_after_leaves(book, request, order_id);
        }
    }
}

/// Law: an id that was issued and does not belong to an order of the book never
/// will. No later trade has it as its maker, and to cancel it finds nothing.
pub proof fn law_stranger_stays_a_stranger(book: Book, order_id: OrderId, requests: Seq<Request>)
    requires
        book.well_formed(),
        book.has_ids_for(requests.len()),
        order_id < book.next_order_id,
        !book.index.contains_key(order_id),
    ensures
        forall|i: int|
            0 <= i < book.fills_of_all(requests).len() ==> (#[trigger] book.fills_of_all(
                requests,
            )[i]).maker_order_id != order_id,
        book.after_all(requests).cancel_answer(order_id) == Err::<Quantity, _>(
            OrderBookError::OrderNotFound(order_id),
        ),
    decreases requests.len(),
{
    if requests.len() > 0 {
        let fewer = requests.drop_last();
        let request = requests.last();
        let now = book.after_all(fewer);
        law_stranger_stays_a_stranger(book, order_id, fewer);
        law_requests_keep_the_book_well_formed(book, fewer);
        if request != (Request::Cancel { order_id }) {
            lemma_after_leaves(now, request, order_id);
        }
        let fills = now.fills_of(request);
        assert forall|i: int| 0 <= i < fills.len() implies (#[trigger] fills[i]).maker_order_id
            != order_id by {
            lemma_maker_is_known(now, request, i);
        }
        let earlier = book.fills_of_all(fewer);
        let all = book.fills_of_all(requests);
        assert(all == earlier + fills);
        assert forall|i: int| 0 <= i < all.len() implies (#[trigger] all[i]).maker_order_id
            != order_id by {
            if i < earlier.len() {
                assert(all[i] == earlier[i]);
            } else {
                assert(all[i] == fills[i - earlier.len()]);
            }
        }
    }
}

/// The maker of a trade is an order of the book.
proof fn lemma_maker_is_known(book: Book, request: Request, i: int)
    requires
        book.well_formed(),
        0 <= i < book.fills_of(request).len(),
    ensures
        book.index.contains_key(book.fills_of(request)[i].maker_order_id),
{
    let (taker, limit) = match request {
        Request::Limit { side, price, quantity, timestamp } => (
            book.limit_order(side, price, quantity, timestamp),
            Some(price),
        ),
        Request::Market { side, quantity, timestamp } => (
            book.market_order(side, quantity, timestamp),
            None,
        ),
        Request::Cancel { .. } => (book.market_order(Side::Bid, 0, 0), None),
    };
    let fills = book.sweep(taker, limit).fills;
    law_best_price_first(book, taker, limit);
    assert(fills[i] == book.fills_of(request)[i]);
    law_order_rests_where_the_index_says(
        book,
        taker.side.other(),
        fills[i].price,
        fills[i].maker_order_id,
    );
}

/// Law: what a market order leaves never enters the book. Its own side is as it
/// was, no later trade has it as its maker, and it cannot be cancelled.
pub proof fn law_market_order_never_enters(
    book: Book,
    side: Side,
    quantity: Quantity,
    timestamp: u64,
    requests: Seq<Request>,
)
    requires
        book.well_formed(),
        book.has_ids_for(1 + requests.len()),
    ensures
        ({
            let after = book.after_market(side, quantity, timestamp);
            let id = book.next_order_id;
            let fills = after.fills_of_all(requests);
            &&& after.side(side) == book.side(side)
            &&& forall|i: int|
                0 <= i < fills.len() ==> (#[trigger] fills[i]).maker_order_id != id
            &&& after.after_all(requests).cancel_answer(id) == Err::<Quantity, _>(
                OrderBookError::OrderNotFound(id),
            )
        }),
{
    let after = book.after_market(side, quantity, timestamp);
    let id = book.next_order_id;
    law_market_order_never_rests(book, side, quantity, timestamp);
    lemma_market_keeps_well_formed(book, side, quantity, timestamp);
    law_ids_are_new(book, Side::Bid, 1, id);
    assert(after.index.dom().contains(id) == book.index.dom().contains(id));
    law_stranger_stays_a_stranger(after, id, requests);
}

impl Request {
    /// The request without its time stamp.
    pub open spec fn unstamped(self) -> Request {
        match self {
            Request::Limit { side, price, quantity, .. } => Request::Limit {
                side,
                price,
                quantity,
                timestamp: 0,
            },
            Request::Market { side, quantity, .. } => Request::Market {
                side,
                quantity,
                timestamp: 0,
            },
            Request::Cancel { .. } => self,
        }
    }
}

/// Law: two books that differ in time stamps alone answer a request to cancel
/// the same, and differ in time stamps alone afterwards.
pub proof fn law_cancel_is_reproducible(one: Book, other: Book, order_id: OrderId)
    requires
        one.well_formed(),
        other.well_formed(),
        one.unstamped() == other.unstamped(),
    ensures
        one.cancel_answer(order_id) == other.cancel_answer(order_id),
        one.after_cancel(order_id).unstamped() == other.after_cancel(order_id).unstamped(),
{
    assert(one.index == one.unstamped().index && other.index == other.unstamped().index);
    if one.cancellable(order_id) {
        let (side, price, _) = one.index[order_id];
        let mine = one.side(side);
        let yours = other.side(side);
        let level = mine[price];
        let twin = yours[price];
        let i = level.place_of(order_id);
        lemma_resting_order_has_a_place(one, order_id);
        lemma_resting_order_has_a_place(other, order_id);
        assert(unstamped_levels(mine) == one.unstamped().side(side));
        assert(unstamped_levels(yours) == other.unstamped().side(side));
        assert(unstamped_levels(mine)[price] == level.unstamped());
        assert(unstamped_levels(yours)[price] == twin.unstamped());
        assert(level.unstamped().orders.len() == level.orders.len());
        assert(twin.unstamped().orders.len() == twin.orders.len());
        assert forall|k: int| 0 <= k < level.orders.len() implies (
        #[trigger] level.orders[k]).order_id == twin.orders[k].order_id
            && level.orders[k].remaining_quantity == twin.orders[k].remaining_quantity by {
            assert(level.unstamped().orders[k] == level.orders[k].unstamped());
            assert(twin.unstamped().orders[k] == twin.orders[k].unstamped());
        }
        assert(twin.first_at(order_id, i)) by {
            assert forall|j: int| 0 <= j < i implies twin.orders[j].order_id != order_id by {
                assert(level.orders[j].order_id != order_id);
            }
        }
        lemma_place_is_one(twin, order_id);
        assert(level.total_quantity == level.unstamped().total_quantity);
        assert(twin.total_quantity == twin.unstamped().total_quantity);
        assert(level.price == level.unstamped().price && twin.price == twin.unstamped().price);
        assert(level.removed(i).unstamped().orders =~= level.unstamped().orders.remove(i));
        assert(twin.removed(i).unstamped().orders =~= twin.unstamped().orders.remove(i));
        assert(level.removed(i).unstamped() == twin.removed(i).unstamped());
        assert(unstamped_levels(mine.remove(price)) =~= unstamped_levels(mine).remove(price));
        assert(unstamped_levels(yours.remove(price)) =~= unstamped_levels(yours).remove(price));
        assert(unstamped_levels(mine.insert(price, level.removed(i))) =~= unstamped_levels(
            mine,
        ).insert(price, level.removed(i).unstamped()));
        assert(unstamped_levels(yours.insert(price, twin.removed(i))) =~= unstamped_levels(
            yours,
        ).insert(price, twin.removed(i).unstamped()));
        assert(one.after_cancel(order_id).unstamped() =~= other.after_cancel(
            order_id,
        ).unstamped());
    }
}

/// Law: what comes of a sequence of requests is reproducible. Two books that
/// differ in time stamps alone, given requests that differ in time stamps
/// alone, bring about the same trades, differ in time stamps alone afterwards,
/// and tell the same totals.
pub proof fn law_history_is_reproducible(
    one: Book,
    other: Book,
    requests: Seq<Request>,
    twins: Seq<Request>,
)
    requires
        one.well_formed(),
        other.well_formed(),
        one.unstamped() == other.unstamped(),
        one.has_ids_for(requests.len()),
        requests.len() == twins.len(),
        forall|i: int|
            0 <= i < requests.len() ==> (#[trigger] requests[i]).unstamped()
                == twins[i].unstamped(),
    ensures
        one.fills_of_all(requests) == other.fills_of_all(twins),
        one.after_all(requests).unstamped() == other.after_all(twins).unstamped(),
        depth(one.after_all(requests).bids) == depth(other.after_all(twins).bids),
        depth(one.after_all(requests).asks) == depth(other.after_all(twins).asks),
    decreases requests.len(),
{
    assert(one.next_order_id == one.unstamped().next_order_id);
    assert(other.next_order_id == other.unstamped().next_order_id);
    law_requests_keep_the_book_well_formed(one, requests);
    law_requests_keep_the_book_well_formed(other, twins);
    if requests.len() > 0 {
        let fewer = requests.drop_last();
        let fewer_twins = twins.drop_last();
        assert forall|i: int| 0 <= i < fewer.len() implies (#[trigger] fewer[i]).unstamped()
            == fewer_twins[i].unstamped() by {
            assert(requests[i].unstamped() == twins[i].unstamped());
        }
        law_history_is_reproducible(one, other, fewer, fewer_twins);
        law_requests_keep_the_book_well_formed(one, fewer);
        law_requests_keep_the_book_well_formed(other, fewer_twins);
        assert(requests[requests.len() - 1].unstamped() == twins[requests.len() - 1].unstamped());
        lemma_request_is_reproducible(
            one.after_all(fewer),
            other.after_all(fewer_twins),
            requests.last(),
            twins.last(),
        );
    }
    law_totals_are_reproducible(one.after_all(requests), other.after_all(twins));
}

proof fn lemma_request_is_reproducible(one: Book, other: Book, request: Request, twin: Request)
    requires
        one.well_formed(),
        other.well_formed(),
        one.unstamped() == other.unstamped(),
        request.unstamped() == twin.unstamped(),
    ensures
        one.fills_of(request) == other.fills_of(twin),
        one.after(request).unstamped() == other.after(twin).unstamped(),
{
    match (request, twin) {
        (
            Request::Limit { side, price, quantity, timestamp },
            Request::Limit { timestamp: later, .. },
        ) => {
            law_limit_order_is_reproducible(one, other, side, price, quantity, timestamp, later);
        },
        (Request::Market { side, quantity, timestamp }, Request::Market { timestamp: later, .. }) => {
            law_market_order_is_reproducible(one, other, side, quantity, timestamp, later);
        },
        (Request::Cancel { order_id }, _) => {
            law_cancel_is_reproducible(one, other, order_id);
        },
        _ => {},
    }
}

} // verus!
