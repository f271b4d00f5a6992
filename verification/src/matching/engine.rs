use std::collections::HashMap;
use vstd::prelude::*;

use crate::error::AppError;
use crate::models::order::{
    CancelOrderResponse, CreateOrderRequest, Order, OrderStatus, OrderStatusResponse, OrderType, Side,
    SubmitOrderResponse,
};
use crate::models::orderbook::OrderBookResponse;
use crate::models::trade::{infos_of, trade_infos, trades_fit, trades_quantity, Trade, TradeInfo};
use crate::sources::millis_fit;
use crate::orderbook::book::{opposite, BookView, OrderBook};
use crate::orderbook::price_level::{Fill, LevelView};
use crate::sources::{new_uuid, now_nanos};
use crate::matching::counts::{
    count_where, lemma_count_where, lemma_resting_total, resting_total, resting_upto, stored_where, was_cancelled,
    was_matched,
};
use crate::matching::submit::{
    fill_taker, lemma_fill_count, lemma_submit_count, lemma_submit_facts, lemma_submit_rest_ok, lemma_submit_wf,
    store_after_fills, submit_accepted,
};
use crate::models::order::validation_error;
use crate::orderbook::price_level::{apply_fills_to, fills_quantity, lemma_sum_concat};

verus! {

broadcast use vstd::std_specs::hash::group_hash_axioms;

/// Result of a matching operation.
#[derive(Debug)]
pub struct MatchResult {
    pub trades: Vec<Trade>,
    pub fully_filled: bool,
}

impl Default for MatchResult {
    fn default() -> (r: Self)
        ensures
            r.trades@.len() == 0,
            !r.fully_filled,
    {
        MatchResult::new()
    }
}

impl MatchResult {
    pub fn new() -> (r: Self)
        ensures
            r.trades@.len() == 0,
            !r.fully_filled,
    {
        MatchResult { trades: Vec::new(), fully_filled: false }
    }

    /// The trade summaries of the trades, in order.
    pub fn to_trade_info_list(&self) -> (infos: Vec<TradeInfo>)
        requires
            trades_fit(self.trades@),
        ensures
            infos@ == infos_of(self.trades@),
    {
        trade_infos(&self.trades)
    }

    /// Total quantity traded.
    pub fn total_filled_quantity(&self) -> (q: u64)
        requires
            trades_quantity(self.trades@) <= u64::MAX,
        ensures
            q == trades_quantity(self.trades@),
    {
        let mut total: u64 = 0;
        let mut i: usize = 0;
        while i < self.trades.len()
            invariant
                i <= self.trades@.len(),
                trades_quantity(self.trades@) <= u64::MAX,
                total == trades_quantity(self.trades@.subrange(0, i as int)),
            decreases self.trades@.len() - i,
        {
            proof {
                let t = self.trades@;
                assert(t.subrange(0, i + 1).drop_last() =~= t.subrange(0, i as int));
                lemma_trades_quantity_prefix(t, i + 1);
            }
            total = total + self.trades[i].quantity;
            i += 1;
        }
        proof {
            assert(self.trades@.subrange(0, i as int) =~= self.trades@);
        }
        total
    }
}

/// Position of the book for `symbol` among `books`, or `books.len()` if none.
pub open spec fn book_pos(books: Seq<BookView>, symbol: Seq<char>) -> nat
    decreases books.len(),
{
    if books.len() == 0 {
        0
    } else if books[0].symbol == symbol {
        0
    } else {
        1 + book_pos(books.drop_first(), symbol)
    }
}

/// A book with no orders.
pub open spec fn empty_book(symbol: Seq<char>) -> BookView {
    BookView {
        symbol,
        bids: Seq::empty(),
        asks: Seq::empty(),
        locations: Map::empty(),
    }
}

/// The books, with an empty book for `symbol` added at the end if there was none.
pub open spec fn ensure_book(books: Seq<BookView>, symbol: Seq<char>) -> Seq<BookView> {
    if book_pos(books, symbol) < books.len() {
        books
    } else {
        books.push(empty_book(symbol))
    }
}

/// The best bid is below the best ask.
pub open spec fn not_crossed(b: BookView) -> bool {
    b.bids.len() > 0 && b.asks.len() > 0 ==> b.bids[0].price < b.asks[0].price
}

/// The order at position `k` of level `l` of side `s` of book `i`.
pub open spec fn book_order(books: Seq<BookView>, i: int, s: Side, l: int, k: int) -> Order {
    books[i].side(s)[l].orders[k]
}

/// Abstract view of the engine: the books in the order their symbols first
/// appeared, every order ever accepted by id, and the number of trades.
pub struct EngineView {
    pub books: Seq<BookView>,
    pub orders: Map<u128, Order>,
    pub trade_count: u64,
}

impl EngineView {
    /// The engine is consistent: every book is well formed, not crossed and
    /// has its own symbol; every resting order is the stored order of its id,
    /// of the book's symbol, and still active; every stored order is keyed by
    /// its id, has a positive quantity and a status that agrees with its fill,
    /// and rests in the book of its symbol exactly while it is active; the
    /// stored orders are finitely many.
    pub open spec fn wf(self) -> bool {
        &&& self.orders.dom().finite()
        &&& forall|i: int| 0 <= i < self.books.len() ==> (#[trigger] self.books[i]).wf() && not_crossed(self.books[i])
        &&& forall|i: int, j: int|
            0 <= i < j < self.books.len() ==> (#[trigger] self.books[i]).symbol != (#[trigger] self.books[j]).symbol
        &&& forall|i: int, s: Side, l: int, k: int|
            0 <= i < self.books.len() && crate::orderbook::book::valid_pos(self.books[i].side(s), l, k) ==> {
                let o = #[trigger] book_order(self.books, i, s, l, k);
                &&& self.orders.contains_key(o.id)
                &&& self.orders[o.id] == o
                &&& o.symbol@ == self.books[i].symbol
                &&& o.active()
            }
        &&& forall|id: u128|
            #[trigger] self.orders.contains_key(id) ==> {
                let o = self.orders[id];
                &&& o.id == id
                &&& o.quantity > 0
                &&& o.status_consistent()
                &&& o.active() ==> book_pos(self.books, o.symbol@) < self.books.len() && self.books[book_pos(
                    self.books,
                    o.symbol@,
                ) as int].locations.contains_key(id)
            }
    }
}

impl EngineView {
    /// The engine after the active order `id` was cancelled at time `now`:
    /// it leaves the book of its symbol and is stored as cancelled.
    pub open spec fn cancel_view(self, id: u128, now: i128) -> EngineView {
        let o = self.orders[id];
        let p = book_pos(self.books, o.symbol@) as int;
        EngineView {
            books: self.books.update(p, self.books[p].without(id)),
            orders: self.orders.insert(id, o.after_cancel(now)),
            ..self
        }
    }
}

/// Cancelling an active order keeps the engine consistent.
pub proof fn lemma_cancel_wf(e: EngineView, id: u128, now: i128)
    requires
        e.wf(),
        e.orders.contains_key(id),
        e.orders[id].active(),
    ensures
        e.cancel_view(id, now).wf(),
{
    let o = e.orders[id];
    let p = book_pos(e.books, o.symbol@) as int;
    lemma_book_pos(e.books, o.symbol@);
    let b = e.books[p];
    let nb = b.without(id);
    crate::orderbook::book::lemma_book_without(b, id);
    let n = e.cancel_view(id, now);
    assert(n.books[p] == nb);
    assert forall|i: int| 0 <= i < n.books.len() implies (#[trigger] n.books[i]).wf() && not_crossed(n.books[i]) by {
        if i != p {
            assert(n.books[i] == e.books[i]);
        } else {
            assert(not_crossed(b));
            if nb.bids.len() > 0 && nb.asks.len() > 0 {
                assert(!crate::orderbook::book::better(Side::Buy, nb.side(Side::Buy)[0].price, b.side(Side::Buy)[0].price));
                assert(!crate::orderbook::book::better(Side::Sell, nb.side(Side::Sell)[0].price, b.side(Side::Sell)[0].price));
            }
        }
    }
    assert forall|i: int, j: int| 0 <= i < j < n.books.len() implies (#[trigger] n.books[i]).symbol
        != (#[trigger] n.books[j]).symbol by {
        assert(e.books[i].symbol != e.books[j].symbol);
    }
    assert forall|i: int, s: Side, l: int, k: int|
        0 <= i < n.books.len() && crate::orderbook::book::valid_pos(n.books[i].side(s), l, k) implies {
        let x = #[trigger] book_order(n.books, i, s, l, k);
        &&& n.orders.contains_key(x.id)
        &&& n.orders[x.id] == x
        &&& x.symbol@ == n.books[i].symbol
        &&& x.active()
    } by {
        let x = book_order(n.books, i, s, l, k);
        if i != p {
            assert(n.books[i] == e.books[i]);
            assert(x == book_order(e.books, i, s, l, k));
            if x.id == id {
                lemma_book_pos_at(e.books, i);
            }
        } else {
            assert(x == nb.side(s)[l].orders[k]);
            assert(crate::orderbook::book::side_holds(b.side(s), x, nb.side(s)[l].price));
            let (a, c) = choose|a: int, c: int|
                crate::orderbook::book::valid_pos(b.side(s), a, c) && b.side(s)[a].price == nb.side(s)[l].price
                    && #[trigger] b.side(s)[a].orders[c] == x;
            assert(x == book_order(e.books, p, s, a, c));
        }
    }
    assert forall|x: u128| #[trigger] n.orders.contains_key(x) implies {
        let y = n.orders[x];
        &&& y.id == x
        &&& y.quantity > 0
        &&& y.status_consistent()
        &&& y.active() ==> book_pos(n.books, y.symbol@) < n.books.len() && n.books[book_pos(
            n.books,
            y.symbol@,
        ) as int].locations.contains_key(x)
    } by {
        if x != id {
            let y = e.orders[x];
            assert(n.orders[x] == y);
            if y.active() {
                let q = book_pos(e.books, y.symbol@) as int;
                assert(forall|j: int| 0 <= j < n.books.len() ==> (#[trigger] n.books[j]).symbol == e.books[j].symbol);
                assert(book_pos(n.books, y.symbol@) == book_pos(e.books, y.symbol@)) by {
                    assert(n.books.len() == e.books.len());
                    lemma_book_pos_eq(e.books, n.books, y.symbol@);
                }
            }
        }
    }
}

/// The first book with a symbol is where `book_pos` finds it.
pub proof fn lemma_book_pos_first(books: Seq<BookView>, symbol: Seq<char>, q: int)
    requires
        0 <= q < books.len(),
        books[q].symbol == symbol,
        forall|j: int| 0 <= j < q ==> (#[trigger] books[j]).symbol != symbol,
    ensures
        book_pos(books, symbol) == q,
{
    lemma_book_pos(books, symbol);
    let p = book_pos(books, symbol) as int;
    if p < q {
        assert(books[p].symbol != symbol);
    }
}

/// Books with the same symbols in the same places locate symbols alike.
pub proof fn lemma_book_pos_eq(a: Seq<BookView>, b: Seq<BookView>, symbol: Seq<char>)
    requires
        a.len() == b.len(),
        forall|j: int| 0 <= j < b.len() ==> (#[trigger] b[j]).symbol == a[j].symbol,
    ensures
        book_pos(a, symbol) == book_pos(b, symbol),
    decreases a.len(),
{
    if a.len() > 0 {
        assert(b[0].symbol == a[0].symbol);
        assert forall|j: int| 0 <= j < b.drop_first().len() implies (#[trigger] b.drop_first()[j]).symbol
            == a.drop_first()[j].symbol by {
            assert(b[j + 1].symbol == a[j + 1].symbol);
        }
        lemma_book_pos_eq(a.drop_first(), b.drop_first(), symbol);
    }
}

/// `book_pos` finds the first book with the symbol, or runs past the end.
pub proof fn lemma_book_pos(books: Seq<BookView>, symbol: Seq<char>)
    ensures
        book_pos(books, symbol) <= books.len(),
        book_pos(books, symbol) < books.len() ==> books[book_pos(books, symbol) as int].symbol == symbol,
        forall|j: int| 0 <= j < book_pos(books, symbol) ==> books[j].symbol != symbol,
    decreases books.len(),
{
    if books.len() > 0 && books[0].symbol != symbol {
        lemma_book_pos(books.drop_first(), symbol);
        assert forall|j: int| 0 <= j < book_pos(books, symbol) implies books[j].symbol != symbol by {
            if j > 0 {
                assert(books[j] == books.drop_first()[j - 1]);
            }
        }
    }
}

/// With distinct symbols, the book at position `i` is the book of its symbol.
pub proof fn lemma_book_pos_at(books: Seq<BookView>, i: int)
    requires
        0 <= i < books.len(),
        forall|a: int, b: int| 0 <= a < b < books.len() ==> (#[trigger] books[a]).symbol != (#[trigger] books[b]).symbol,
    ensures
        book_pos(books, books[i].symbol) == i,
{
    lemma_book_pos(books, books[i].symbol);
    let p = book_pos(books, books[i].symbol) as int;
    if p < i {
        assert(books[p].symbol != books[i].symbol);
    }
    if p > i {
        assert(books[i].symbol != books[i].symbol);
    }
}

/// The trades of a prefix total no more than all the trades.
proof fn lemma_trades_quantity_prefix(t: Seq<Trade>, i: int)
    requires
        0 <= i <= t.len(),
    ensures
        trades_quantity(t.subrange(0, i)) <= trades_quantity(t),
    decreases t.len() - i,
{
    if i < t.len() {
        lemma_trades_quantity_prefix(t, i + 1);
        assert(t.subrange(0, i + 1).drop_last() =~= t.subrange(0, i));
    } else {
        assert(t.subrange(0, i) =~= t);
    }
}

/// Trade `t` records fill `f` of the incoming order `taker` at time `now`:
/// the taker's symbol and side, the fill's price and quantity, and the
/// taker and the resting order as buyer and seller according to the side.
pub open spec fn trade_matches(t: Trade, f: Fill, taker: Order, now: i128) -> bool {
    &&& t.symbol == taker.symbol
    &&& t.price == f.price
    &&& t.quantity == f.quantity
    &&& t.taker_side == taker.side
    &&& t.executed_at == now
    &&& match taker.side {
        Side::Buy => t.buyer_order_id == taker.id && t.seller_order_id == f.maker_id,
        Side::Sell => t.buyer_order_id == f.maker_id && t.seller_order_id == taker.id,
    }
}

/// The trade summaries report the fills, in order, at time `now` (in whole
/// milliseconds).
pub open spec fn trades_match(infos: Seq<TradeInfo>, fills: Seq<Fill>, now: i128) -> bool {
    &&& infos.len() == fills.len()
    &&& forall|j: int|
        0 <= j < fills.len() ==> (#[trigger] infos[j]).price == fills[j].price && infos[j].quantity
            == fills[j].quantity && infos[j].timestamp == now / 1_000_000
}

/// The response to an accepted order `r` that ended up as `taker` after the
/// fills `fills` at time `now`: filled if it is completely filled (always,
/// for a market order), partially filled if some but not all of it was
/// filled, accepted if none of it was.
pub open spec fn submit_response(
    resp: SubmitOrderResponse,
    r: CreateOrderRequest,
    taker: Order,
    fills: Seq<Fill>,
    now: i128,
) -> bool {
    match resp {
        SubmitOrderResponse::Filled(f) => {
            &&& (r.order_type is Market || taker.filled())
            &&& f.order_id == taker.id
            &&& f.status == OrderStatus::Filled
            &&& f.filled_quantity == taker.filled_quantity
            &&& trades_match(f.trades@, fills, now)
        },
        SubmitOrderResponse::PartialFill(pf) => {
            &&& r.order_type is Limit
            &&& !taker.filled()
            &&& taker.filled_quantity > 0
            &&& pf.order_id == taker.id
            &&& pf.status == OrderStatus::PartialFill
            &&& pf.filled_quantity == taker.filled_quantity
            &&& pf.remaining_quantity == taker.remaining()
            &&& trades_match(pf.trades@, fills, now)
        },
        SubmitOrderResponse::Accepted(a) => {
            &&& r.order_type is Limit
            &&& taker.filled_quantity == 0
            &&& a.order_id == taker.id
            &&& a.status == OrderStatus::Accepted
            &&& a.message@ == "Order added to book"@
        },
    }
}

/// What submitting `r` under id `id` at time `now` does, from engine `e` to
/// engine `n` with result `result`: an invalid request is refused with its
/// validation message; a market order that
/// the other side cannot fill completely is refused with the quantity
/// available (the symbol's book is created if it was missing); otherwise the
/// order is accepted as `submit_view` says and answered as `submit_response`
/// says.
pub open spec fn submit_outcome(
    e: EngineView,
    n: EngineView,
    r: CreateOrderRequest,
    result: Result<SubmitOrderResponse, AppError>,
    id: u128,
    now: i128,
) -> bool {
    match validation_error(r) {
        Some(msg) => (result matches Err(AppError::InvalidOrder(m)) && m@ == msg) && n == e,
        None => if r.order_type is Market && e.available(r) < r.quantity {
            &&& result == Err::<SubmitOrderResponse, AppError>(
                AppError::InsufficientLiquidity { available: e.available(r) as u64, requested: r.quantity },
            )
            &&& n == EngineView { books: ensure_book(e.books, r.symbol@), ..e }
        } else {
            &&& n == e.submit_view(r, id, now)
            &&& result matches Ok(resp) && submit_response(
                resp,
                r,
                e.submit_taker(r, id, now),
                e.submit_fills(r, now),
                now,
            )
        },
    }
}

/// The core matching engine.
///
/// One engine serves every symbol: callers that share it across threads hold
/// it behind a lock.
pub struct MatchingEngine {
    /// Order books, one per symbol, in the order their symbols first appeared
    order_books: Vec<OrderBook>,
    /// All orders for status lookup (includes filled/cancelled)
    orders: HashMap<u128, Order>,
    /// Trade counter for metrics
    trade_count: u64,
}

/// Views of a sequence of books.
pub open spec fn books_view(books: Seq<OrderBook>) -> Seq<BookView> {
    books.map_values(|b: OrderBook| b@)
}

impl View for MatchingEngine {
    type V = EngineView;

    closed spec fn view(&self) -> EngineView {
        EngineView {
            books: books_view(self.order_books@),
            orders: self.orders@,
            trade_count: self.trade_count,
        }
    }
}

impl Default for MatchingEngine {
    fn default() -> (engine: Self)
        ensures
            engine.wf(),
            engine@.books == Seq::<BookView>::empty(),
            engine@.orders == Map::<u128, Order>::empty(),
            engine@.trade_count == 0,
    {
        MatchingEngine::new()
    }
}

impl MatchingEngine {
    /// Every book's levels keep their totals.
    pub closed spec fn books_wf(&self) -> bool {
        forall|i: int| 0 <= i < self.order_books@.len() ==> (#[trigger] self.order_books@[i]).wf()
    }

    /// The engine is well formed.
    pub open spec fn wf(&self) -> bool {
        self@.wf() && self.books_wf()
    }

    pub fn new() -> (engine: Self)
        ensures
            engine.wf(),
            engine@.books == Seq::<BookView>::empty(),
            engine@.orders == Map::<u128, Order>::empty(),
            engine@.trade_count == 0,
    {
        let engine = MatchingEngine { order_books: Vec::new(), orders: HashMap::new(), trade_count: 0 };
        assert(engine@.books =~= Seq::<BookView>::empty());
        engine
    }

    /// Position of the book for `symbol`, or the number of books if none.
    fn find_book(&self, symbol: &String) -> (idx: usize)
        ensures
            idx == book_pos(self@.books, symbol@),
    {
        proof {
            lemma_book_pos(self@.books, symbol@);
        }
        let mut i: usize = 0;
        while i < self.order_books.len()
            invariant
                i <= self.order_books@.len(),
                i <= book_pos(self@.books, symbol@),
                book_pos(self@.books, symbol@) <= self@.books.len(),
                book_pos(self@.books, symbol@) < self@.books.len() ==> self@.books[book_pos(self@.books, symbol@) as int].symbol
                    == symbol@,
                forall|j: int| 0 <= j < book_pos(self@.books, symbol@) ==> self@.books[j].symbol != symbol@,
            decreases self.order_books@.len() - i,
        {
            assert(self@.books[i as int] == self.order_books@[i as int]@);
            if self.order_books[i].has_symbol(symbol) {
                assert(i as nat == book_pos(self@.books, symbol@));
                return i;
            }
            i += 1;
        }
        i
    }

    /// Position of the book for `symbol`, adding an empty book if there was none.
    fn find_or_create_book(&mut self, symbol: &String) -> (idx: usize)
        requires
            old(self).wf(),
        ensures
            final(self).wf(),
            final(self)@ == (EngineView { books: ensure_book(old(self)@.books, symbol@), ..old(self)@ }),
            idx == book_pos(final(self)@.books, symbol@),
            idx < final(self)@.books.len(),
    {
        let idx = self.find_book(symbol);
        proof {
            lemma_book_pos(self@.books, symbol@);
        }
        if idx < self.order_books.len() {
            return idx;
        }
        let ghost before = self@;
        let book = OrderBook::new(symbol.clone());
        self.order_books.push(book);
        proof {
            let e = self@;
            assert(e.books =~= before.books.push(empty_book(symbol@)));
            lemma_book_pos(e.books, symbol@);
            assert forall|j: int| 0 <= j < before.books.len() implies e.books[j].symbol != symbol@ by {
                assert(e.books[j] == before.books[j]);
            }
            assert(book_pos(e.books, symbol@) == idx) by {
                let p = book_pos(e.books, symbol@) as int;
                if p < idx {
                    assert(e.books[p] == before.books[p]);
                }
                assert(e.books[idx as int].symbol == symbol@);
            }
            assert forall|i: int| 0 <= i < e.books.len() implies (#[trigger] e.books[i]).wf() && not_crossed(e.books[i]) by {
                if i < before.books.len() {
                    assert(e.books[i] == before.books[i]);
                }
            }
            assert forall|i: int, j: int| 0 <= i < j < e.books.len() implies (#[trigger] e.books[i]).symbol
                != (#[trigger] e.books[j]).symbol by {
                assert(e.books[i] == before.books[i]);
                if j < before.books.len() {
                    assert(e.books[j] == before.books[j]);
                }
            }
            assert forall|i: int, s: Side, l: int, k: int|
                0 <= i < e.books.len() && crate::orderbook::book::valid_pos(e.books[i].side(s), l, k) implies {
                let o = #[trigger] book_order(e.books, i, s, l, k);
                &&& e.orders.contains_key(o.id)
                &&& e.orders[o.id] == o
                &&& o.symbol@ == e.books[i].symbol
                &&& o.active()
            } by {
                if i < before.books.len() {
                    assert(e.books[i] == before.books[i]);
                    assert(book_order(e.books, i, s, l, k) == book_order(before.books, i, s, l, k));
                } else {
                    assert(e.books[i].side(s).len() == 0);
                }
            }
            assert forall|id: u128| #[trigger] e.orders.contains_key(id) implies {
                let o = e.orders[id];
                &&& o.id == id
                &&& o.quantity > 0
                &&& o.status_consistent()
                &&& o.active() ==> book_pos(e.books, o.symbol@) < e.books.len() && e.books[book_pos(
                    e.books,
                    o.symbol@,
                ) as int].locations.contains_key(id)
            } by {
                let o = e.orders[id];
                if o.active() {
                    let p = book_pos(before.books, o.symbol@) as int;
                    lemma_book_pos(before.books, o.symbol@);
                    lemma_book_pos(e.books, o.symbol@);
                    assert(e.books[p] == before.books[p]);
                    assert(o.symbol@ != symbol@);
                    let q = book_pos(e.books, o.symbol@) as int;
                    if q < p {
                        assert(e.books[q] == before.books[q]);
                    }
                    if q > p {
                        assert(e.books[p].symbol == o.symbol@);
                    }
                }
            }
        }
        idx
    }

    /// Cancels an order by ID, stamping the change with the current time.
    pub fn cancel_order(&mut self, order_id: u128) -> (r: Result<CancelOrderResponse, AppError>)
        requires
            old(self).wf(),
        ensures
            final(self).wf(),
            !old(self)@.orders.contains_key(order_id) ==> r == Err::<CancelOrderResponse, AppError>(
                AppError::OrderNotFound(order_id),
            ) && final(self)@ == old(self)@,
            old(self)@.orders.contains_key(order_id) ==> match old(self)@.orders[order_id].status {
                OrderStatus::Filled => r == Err::<CancelOrderResponse, AppError>(
                    AppError::CannotCancelFilledOrder(order_id),
                ) && final(self)@ == old(self)@,
                OrderStatus::Cancelled => r == Err::<CancelOrderResponse, AppError>(
                    AppError::OrderNotFound(order_id),
                ) && final(self)@ == old(self)@,
                _ => r == Ok::<CancelOrderResponse, AppError>(CancelOrderResponse::new_view(order_id))
                    && final(self)@ == old(self)@.cancel_view(order_id, final(self)@.orders[order_id].updated_at),
            },
    {
        let now = now_nanos();
        self.cancel_order_at(order_id, now)
    }

    /// Cancels an order by ID at time `now`. Filled orders cannot be
    /// cancelled; unknown and already cancelled orders are not found.
    pub fn cancel_order_at(&mut self, order_id: u128, now: i128) -> (r: Result<CancelOrderResponse, AppError>)
        requires
            old(self).wf(),
        ensures
            final(self).wf(),
            !old(self)@.orders.contains_key(order_id) ==> r == Err::<CancelOrderResponse, AppError>(
                AppError::OrderNotFound(order_id),
            ) && final(self)@ == old(self)@,
            old(self)@.orders.contains_key(order_id) ==> match old(self)@.orders[order_id].status {
                OrderStatus::Filled => r == Err::<CancelOrderResponse, AppError>(
                    AppError::CannotCancelFilledOrder(order_id),
                ) && final(self)@ == old(self)@,
                OrderStatus::Cancelled => r == Err::<CancelOrderResponse, AppError>(
                    AppError::OrderNotFound(order_id),
                ) && final(self)@ == old(self)@,
                _ => r == Ok::<CancelOrderResponse, AppError>(CancelOrderResponse::new_view(order_id))
                    && final(self)@ == old(self)@.cancel_view(order_id, now),
            },
    {
        let ghost e = self@;
        let status = match self.orders.get(&order_id) {
            None => {
                return Err(AppError::OrderNotFound(order_id));
            },
            Some(order) => order.status,
        };
        match status {
            OrderStatus::Filled => {
                return Err(AppError::CannotCancelFilledOrder(order_id));
            },
            OrderStatus::Cancelled => {
                return Err(AppError::OrderNotFound(order_id));
            },
            _ => {},
        }
        proof {
            lemma_cancel_wf(e, order_id, now);
            lemma_book_pos(e.books, e.orders[order_id].symbol@);
        }
        let symbol = self.orders.get(&order_id).unwrap().symbol.clone();
        let idx = self.find_book(&symbol);
        let ghost b = self.order_books@[idx as int];
        assert(b@ == e.books[idx as int]);
        let _ = self.order_books[idx].remove_order(order_id);
        let mut order = self.orders.remove(&order_id).unwrap();
        order.cancel_at(now);
        self.orders.insert(order_id, order);
        proof {
            assert(books_view(self.order_books@) =~= e.books.update(idx as int, e.books[idx as int].without(order_id)));
            assert(self@.orders =~= e.orders.insert(order_id, e.orders[order_id].after_cancel(now)));
            assert(self@ == e.cancel_view(order_id, now));
            assert forall|i: int| 0 <= i < self.order_books@.len() implies (#[trigger] self.order_books@[i]).wf() by {
                if i != idx {
                    assert(self.order_books@[i] == old(self).order_books@[i]);
                }
            }
        }
        Ok(CancelOrderResponse::new(order_id))
    }

    /// Tests that submitting `request` stays within the machine's integers:
    /// exactly the bounds `within_limits` names, which are sufficient, not
    /// necessary (they ask that the trade counter could count one trade per
    /// unit of the requested quantity, and that a limit order's price level
    /// could take its whole quantity).
    pub fn submit_within_limits(&self, request: &CreateOrderRequest) -> (b: bool)
        requires
            self.wf(),
        ensures
            b == self@.within_limits(*request),
            b ==> self@.submit_fits(*request),
    {
        let ghost e = self@;
        let ghost r = *request;
        if request.validate().is_err() {
            return true;
        }
        let q = request.quantity;
        if self.trade_count > u64::MAX - q {
            return false;
        }
        let idx = self.find_book(&request.symbol);
        proof {
            lemma_book_pos(e.books, r.symbol@);
        }
        if idx >= self.order_books.len() {
            proof {
                assert(e.book_for(r.symbol@) == empty_book(r.symbol@));
                assert(e.book_for(r.symbol@).side(opposite(r.side)) =~= Seq::<LevelView>::empty());
                assert(e.book_for(r.symbol@).side(r.side) =~= Seq::<LevelView>::empty());
                if r.order_type is Limit {
                    lemma_fill_count(e, r, 0);
                }
            }
            return true;
        }
        proof {
            assert(e.books[idx as int] == self.order_books@[idx as int]@);
            assert(self.order_books@[idx as int].wf());
        }
        let opp = match request.side {
            Side::Buy => Side::Sell,
            Side::Sell => Side::Buy,
        };
        let available = self.order_books[idx].checked_total_quantity(opp);
        match request.order_type {
            OrderType::Market => {
                match available {
                    None => false,
                    Some(a) => {
                        proof {
                            if a >= q {
                                lemma_fill_count(e, r, 0);
                            }
                        }
                        true
                    },
                }
            },
            OrderType::Limit => {
                let price = request.price.unwrap();
                let at = self.order_books[idx].quantity_at(request.side, price);
                proof {
                    lemma_fill_count(e, r, 0);
                }
                at <= u64::MAX - q
            },
        }
    }

    /// Submits a new order for processing, under a newly drawn random id that
    /// no stored order has, at the current time.
    pub fn submit_order(&mut self, request: CreateOrderRequest) -> (r: Result<SubmitOrderResponse, AppError>)
        requires
            old(self).wf(),
            old(self)@.submit_fits(request),
        ensures
            final(self).wf(),
            exists|id: u128, now: i128|
                !old(self)@.orders.contains_key(id) && submit_outcome(old(self)@, final(self)@, request, r, id, now),
    {
        let drawn = new_uuid();
        let order_id = self.fresh_order_id(drawn);
        let now = now_nanos();
        self.submit_order_at(request, order_id, now)
    }

    /// An id no stored order has: `drawn` itself when it is free, else the
    /// nearest free id counting up from it (down, near the top of the range).
    fn fresh_order_id(&self, drawn: u128) -> (id: u128)
        ensures
            !self@.orders.contains_key(id),
            !self@.orders.contains_key(drawn) ==> id == drawn,
    {
        let ghost m = self.orders@;
        let n = self.orders.len() as u128;
        let up = drawn <= u128::MAX - n;
        let mut k: u128 = 0;
        let ghost mut seen: Seq<u128> = Seq::empty();
        while k <= n
            invariant
                m == self.orders@,
                m.dom().finite(),
                n == m.dom().len(),
                n <= usize::MAX,
                k <= n + 1,
                up == (drawn <= u128::MAX - n),
                seen.len() == k,
                forall|j: int| 0 <= j < k ==> seen[j] == (if up { drawn + j } else { drawn - j }),
                forall|j: int| 0 <= j < k ==> m.contains_key(#[trigger] seen[j]),
                k > 0 ==> m.contains_key(drawn),
            decreases n + 1 - k,
        {
            let cand = if up { drawn + k } else { drawn - k };
            if !self.orders.contains_key(&cand) {
                return cand;
            }
            proof {
                seen = seen.push(cand);
                assert(seen[k as int] == cand);
            }
            k = k + 1;
        }
        proof {
            assert(seen.no_duplicates()) by {
                assert forall|a: int, b: int| 0 <= a < seen.len() && 0 <= b < seen.len() && a != b implies seen[a]
                    != seen[b] by {}
            }
            seen.unique_seq_to_set();
            assert forall|x: u128| seen.to_set().contains(x) implies m.dom().contains(x) by {
                let j = choose|j: int| 0 <= j < seen.len() && seen[j] == x;
                assert(m.contains_key(seen[j]));
            }
            vstd::set_lib::lemma_len_subset(seen.to_set(), m.dom());
        }
        drawn
    }

    /// Submits a new order under the unused id `order_id` at time `now`:
    /// validates it, then matches it as a market or limit order.
    pub fn submit_order_at(&mut self, request: CreateOrderRequest, order_id: u128, now: i128) -> (r: Result<
        SubmitOrderResponse,
        AppError,
    >)
        requires
            millis_fit(now),
            old(self).wf(),
            old(self)@.submit_fits(request),
            !old(self)@.orders.contains_key(order_id),
        ensures
            final(self).wf(),
            submit_outcome(old(self)@, final(self)@, request, r, order_id, now),
    {
        match request.validate() {
            Err(msg) => {
                return Err(AppError::InvalidOrder(msg));
            },
            Ok(()) => {},
        }
        let ghost r = request;
        let order = Order::with_id(request, order_id, now);
        match order.order_type {
            OrderType::Market => self.process_market_order(order, now, Ghost(r)),
            OrderType::Limit => self.process_limit_order(order, now, Ghost(r)),
        }
    }

    /// Processes a market order: it must be fully filled or it is rejected.
    fn process_market_order(&mut self, order: Order, now: i128, Ghost(r): Ghost<CreateOrderRequest>) -> (result: Result<
        SubmitOrderResponse,
        AppError,
    >)
        requires
            millis_fit(now),
            old(self).wf(),
            old(self)@.submit_fits(r),
            validation_error(r) is None,
            r.order_type is Market,
            !old(self)@.orders.contains_key(order.id),
            order == Order::from_request(r, order.id, now),
        ensures
            final(self).wf(),
            submit_outcome(old(self)@, final(self)@, r, result, order.id, now),
    {
        let ghost e = self@;
        let mut order = order;
        let idx = self.find_or_create_book(&order.symbol);
        proof {
            lemma_book_pos(e.books, r.symbol@);
            lemma_book_pos(self@.books, r.symbol@);
            assert(self@.books[idx as int] == self.order_books@[idx as int]@);
            assert(self@.books[idx as int] == e.book_for(r.symbol@)) by {
                if book_pos(e.books, r.symbol@) < e.books.len() {
                } else {
                    assert(self@.books == e.books.push(empty_book(r.symbol@)));
                    assert(book_pos(self@.books, r.symbol@) == e.books.len()) by {
                        lemma_book_pos_first(self@.books, r.symbol@, e.books.len() as int);
                    }
                }
            }
        }
        let available = match order.side {
            Side::Buy => self.order_books[idx].total_ask_quantity(),
            Side::Sell => self.order_books[idx].total_bid_quantity(),
        };
        if available < order.quantity {
            return Err(AppError::InsufficientLiquidity { available, requested: order.quantity });
        }
        proof {
            lemma_submit_facts(e, r, order.id, now);
            lemma_submit_wf(e, r, order.id, now);
            lemma_submit_rest_ok(e, r, order.id, now);
            lemma_submit_count(e, r, order.id, now);
        }
        let result = self.match_order(&mut order, idx, now, Ghost(e), Ghost(r));
        self.trade_count = self.trade_count + result.trades.len() as u64;
        let infos = result.to_trade_info_list();
        let order_id = order.id;
        let filled_quantity = order.filled_quantity;
        self.orders.insert(order_id, order);
        proof {
            assert(self@ == e.submit_view(r, order_id, now));
        }
        Ok(SubmitOrderResponse::filled(order_id, filled_quantity, infos))
    }

    /// Processes a limit order: it may be partially filled, and what is left
    /// of it rests in the book.
    fn process_limit_order(&mut self, order: Order, now: i128, Ghost(r): Ghost<CreateOrderRequest>) -> (result: Result<
        SubmitOrderResponse,
        AppError,
    >)
        requires
            millis_fit(now),
            old(self).wf(),
            old(self)@.submit_fits(r),
            validation_error(r) is None,
            r.order_type is Limit,
            !old(self)@.orders.contains_key(order.id),
            order == Order::from_request(r, order.id, now),
        ensures
            final(self).wf(),
            submit_outcome(old(self)@, final(self)@, r, result, order.id, now),
    {
        let ghost e = self@;
        let mut order = order;
        let idx = self.find_or_create_book(&order.symbol);
        proof {
            lemma_book_pos(e.books, r.symbol@);
            lemma_book_pos(self@.books, r.symbol@);
            assert(self@.books[idx as int] == e.book_for(r.symbol@)) by {
                if book_pos(e.books, r.symbol@) < e.books.len() {
                } else {
                    assert(self@.books == e.books.push(empty_book(r.symbol@)));
                    lemma_book_pos_first(self@.books, r.symbol@, e.books.len() as int);
                }
            }
            lemma_submit_facts(e, r, order.id, now);
            lemma_submit_wf(e, r, order.id, now);
            lemma_submit_rest_ok(e, r, order.id, now);
            lemma_submit_count(e, r, order.id, now);
        }
        let ghost id0 = order.id;
        let result = self.match_order(&mut order, idx, now, Ghost(e), Ghost(r));
        proof {
            assert(self.order_books@.len() == self@.books.len());
            assert(self@.books[idx as int] == self.order_books@[idx as int]@);
            assert(self.order_books@[idx as int].wf());
        }
        let ghost ob = self.order_books@;
        if result.trades.len() > 0 {
            self.trade_count = self.trade_count + result.trades.len() as u64;
        }
        let infos = result.to_trade_info_list();
        let order_id = order.id;
        let response = if order.is_filled() {
            SubmitOrderResponse::filled(order_id, order.filled_quantity, infos)
        } else if order.filled_quantity > 0 {
            self.order_books[idx].add_order(order.clone());
            SubmitOrderResponse::partial_fill(order_id, order.filled_quantity, order.remaining_quantity(), infos)
        } else {
            self.order_books[idx].add_order(order.clone());
            SubmitOrderResponse::accepted(order_id)
        };
        proof {
            let taker = e.submit_taker(r, order_id, now);
            let b1 = ob[idx as int]@;
            let b2 = if !taker.filled() { b1.with_order(taker) } else { b1 };
            assert(self.order_books@[idx as int]@ == b2);
            assert forall|i: int| 0 <= i < self.order_books@.len() && i != idx implies self.order_books@[i] == ob[i] by {}
            assert(books_view(self.order_books@) =~= books_view(ob).update(idx as int, b2));
        }
        self.orders.insert(order_id, order);
        proof {
            let n = e.submit_view(r, order_id, now);
            assert(self@.books == n.books);
            assert(self@.orders == n.orders);
            assert(self@.trade_count == n.trade_count);
        }
        Ok(response)
    }

    /// Core matching: matches `order` against the other side of book `idx` in
    /// price-time priority at time `now`, fills the resting orders it trades
    /// with in storage, and records one trade per fill.
    fn match_order(
        &mut self,
        order: &mut Order,
        idx: usize,
        now: i128,
        Ghost(e): Ghost<EngineView>,
        Ghost(r): Ghost<CreateOrderRequest>,
    ) -> (result: MatchResult)
        requires
            millis_fit(now),
            submit_accepted(e, r, old(order).id),
            *old(order) == Order::from_request(r, old(order).id, now),
            old(self).books_wf(),
            old(self)@ == (EngineView { books: ensure_book(e.books, r.symbol@), ..e }),
            idx == book_pos(old(self)@.books, r.symbol@),
            idx < old(self)@.books.len(),
            old(self)@.books[idx as int] == e.book_for(r.symbol@),
        ensures
            ({
                let fills = e.submit_fills(r, now);
                &&& final(self).books_wf()
                &&& final(self)@.books == old(self)@.books.update(
                    idx as int,
                    e.book_for(r.symbol@).after_match(r.side, r.price, r.quantity as nat, now),
                )
                &&& final(self)@.orders == store_after_fills(e.orders, fills, now)
                &&& final(self)@.trade_count == e.trade_count
                &&& *final(order) == e.submit_taker(r, old(order).id, now)
                &&& result.trades@.len() == fills.len()
                &&& forall|j: int|
                    0 <= j < fills.len() ==> trade_matches(#[trigger] result.trades@[j], fills[j], *old(order), now)
                &&& infos_of(result.trades@).len() == fills.len()
                &&& trades_fit(result.trades@)
                &&& result.fully_filled == final(order).filled()
            }),
    {
        let ghost order0 = *order;
        let ghost fl = e.submit_fills(r, now);
        proof {
            lemma_submit_facts(e, r, order0.id, now);
            assert(self@.books[idx as int] == self.order_books@[idx as int]@);
        }
        let want = order.remaining_quantity();
        let fills = self.order_books[idx].match_incoming(order.side, order.price, want, now);
        assert(fills@ == fl);
        proof {
            assert forall|i: int| 0 <= i < self.order_books@.len() implies (#[trigger] self.order_books@[i]).wf() by {
                if i != idx {
                    assert(self.order_books@[i] == old(self).order_books@[i]);
                }
            }
            assert(books_view(self.order_books@) =~= old(self)@.books.update(
                idx as int,
                e.book_for(r.symbol@).after_match(r.side, r.price, r.quantity as nat, now),
            ));
            assert(self.orders@ =~= store_after_fills(e.orders, fl.subrange(0, 0), now)) by {
                assert forall|x: u128| #[trigger] self.orders@.contains_key(x) implies self.orders@[x] == apply_fills_to(
                    e.orders[x],
                    fl.subrange(0, 0),
                    now,
                ) by {}
            }
            assert(fl.subrange(0, 0) =~= Seq::<Fill>::empty());
            lemma_sum_concat(fl, Seq::<Fill>::empty());
        }
        let mut trades: Vec<Trade> = Vec::new();
        let mut j: usize = 0;
        while j < fills.len()
            invariant
                j <= fills@.len(),
                fills@ == fl,
                fl == e.submit_fills(r, now),
                submit_accepted(e, r, order0.id),
                order0 == Order::from_request(r, order0.id, now),
                *order == fill_taker(order0, fl.subrange(0, j as int), now),
                order.filled_quantity == fills_quantity(fl.subrange(0, j as int)),
                self.orders@ == store_after_fills(e.orders, fl.subrange(0, j as int), now),
                trades@.len() == j,
                forall|a: int| 0 <= a < j ==> trade_matches(#[trigger] trades@[a], fl[a], order0, now),
                self.books_wf(),
                books_view(self.order_books@) == old(self)@.books.update(
                    idx as int,
                    e.book_for(r.symbol@).after_match(r.side, r.price, r.quantity as nat, now),
                ),
                self.trade_count == e.trade_count,
            decreases fl.len() - j,
        {
            proof {
                lemma_submit_facts(e, r, order0.id, now);
                crate::matching::submit::lemma_taker_step(order0, fl, j as int, now);
                crate::matching::submit::lemma_store_step(e.orders, fl, j as int, now);
            }
            let f = fills[j];
            let taker_id = order.id;
            let (buyer, seller) = match order.side {
                Side::Buy => (taker_id, f.maker_id),
                Side::Sell => (f.maker_id, taker_id),
            };
            let trade = Trade {
                id: new_uuid(),
                symbol: order.symbol.clone(),
                price: f.price,
                quantity: f.quantity,
                buyer_order_id: buyer,
                seller_order_id: seller,
                taker_side: order.side,
                executed_at: now,
            };
            trades.push(trade);
            order.fill_at(f.quantity, now);
            let mut maker = self.orders.remove(&f.maker_id).unwrap();
            maker.fill_at(f.quantity, now);
            self.orders.insert(f.maker_id, maker);
            proof {
                assert(self.orders@ =~= store_after_fills(e.orders, fl.subrange(0, j + 1), now));
            }
            j += 1;
        }
        proof {
            assert(fl.subrange(0, j as int) =~= fl);
        }
        let fully_filled = order.is_filled();
        MatchResult { trades, fully_filled }
    }

    /// Gets order status by ID.
    pub fn get_order(&self, order_id: u128) -> (r: Result<OrderStatusResponse, AppError>)
        ensures
            match r {
                Ok(status) => self@.orders.contains_key(order_id) && status == self@.orders[order_id].status_view(),
                Err(e) => !self@.orders.contains_key(order_id) && e == AppError::OrderNotFound(order_id),
            },
    {
        match self.orders.get(&order_id) {
            Some(order) => Ok(order.to_status_response()),
            None => Err(AppError::OrderNotFound(order_id)),
        }
    }

    /// Gets the order book for a symbol, `depth` levels per side at most.
    pub fn get_order_book(&self, symbol: &str, depth: usize) -> (r: OrderBookResponse)
        requires
            self.wf(),
        ensures
            r.symbol@ == symbol@,
            ({
                let p = book_pos(self@.books, symbol@) as int;
                if p < self@.books.len() {
                    &&& r.bids@ == crate::orderbook::book::depth_infos(self@.books[p].bids, depth as nat)
                    &&& r.asks@ == crate::orderbook::book::depth_infos(self@.books[p].asks, depth as nat)
                } else {
                    r.bids@.len() == 0 && r.asks@.len() == 0
                }
            }),
    {
        broadcast use vstd::string::to_string_from_display_ensures_for_str;
        let sym = symbol.to_string();
        let idx = self.find_book(&sym);
        if idx < self.order_books.len() {
            proof {
                lemma_book_pos(self@.books, sym@);
                assert(self@.books[idx as int] == self.order_books@[idx as int]@);
            }
            self.order_books[idx].to_response(depth)
        } else {
            OrderBookResponse::empty(sym)
        }
    }

    /// Gets total number of trades executed.
    pub fn trades_executed(&self) -> (n: u64)
        ensures
            n == self@.trade_count,
    {
        self.trade_count
    }

    /// Gets total number of orders received.
    pub fn orders_received(&self) -> (n: usize)
        ensures
            n == self@.orders.len(),
    {
        self.orders.len()
    }

    /// Gets count of orders that were matched (partially or fully).
    pub fn orders_matched(&self) -> (n: usize)
        ensures
            n == stored_where(self@.orders, |o: Order| was_matched(o)).len(),
    {
        let keep = |o: &Order| -> (b: bool)
            ensures
                b == was_matched(*o),
            { o.filled_quantity > 0 };
        self.count_stored(Ghost(|o: Order| was_matched(o)), keep)
    }

    /// Gets count of cancelled orders.
    pub fn orders_cancelled(&self) -> (n: usize)
        ensures
            n == stored_where(self@.orders, |o: Order| was_cancelled(o)).len(),
    {
        let keep = |o: &Order| -> (b: bool)
            ensures
                b == was_cancelled(*o),
            { o.status == OrderStatus::Cancelled };
        self.count_stored(Ghost(|o: Order| was_cancelled(o)), keep)
    }

    /// Gets total number of orders currently in all order books.
    pub fn orders_in_book(&self) -> (n: usize)
        requires
            self.wf(),
        ensures
            n == resting_total(self@.books),
    {
        let total = self.orders.len();
        let mut sum: usize = 0;
        let mut i: usize = 0;
        while i < self.order_books.len()
            invariant
                self.wf(),
                total == self@.orders.len(),
                i <= self.order_books@.len(),
                sum == resting_upto(self@.books, i as nat),
            decreases self.order_books@.len() - i,
        {
            proof {
                assert(self@.books[i as int] == self.order_books@[i as int]@);
                lemma_resting_total(self@, (i + 1) as nat);
            }
            sum = sum + self.order_books[i].total_order_count();
            i += 1;
        }
        sum
    }

    /// Counts the stored orders that satisfy `p`, as `keep` decides for each.
    fn count_stored<F: Fn(&Order) -> bool>(&self, Ghost(p): Ghost<spec_fn(Order) -> bool>, keep: F) -> (n: usize)
        requires
            forall|o: Order| #[trigger] call_ensures(keep, (&o,), true) ==> p(o),
            forall|o: Order| #[trigger] call_ensures(keep, (&o,), false) ==> !p(o),
            forall|o: Order| call_requires(keep, (&o,)),
        ensures
            n == stored_where(self@.orders, p).len(),
    {
        let ghost m = self.orders@;
        let ghost mut seen: Seq<u128> = Seq::empty();
        let total = self.orders.len();
        let mut count: usize = 0;
        for k in it: self.orders.keys()
            invariant
                m == self.orders@,
                total == m.dom().len(),
                it.seq().unref().no_duplicates(),
                it.seq().unref().to_set() == m.dom(),
                it.seq().len() == m.dom().len(),
                seen == it.seq().take(it.index()).unref(),
                seen.no_duplicates(),
                forall|x: u128| seen.contains(x) ==> m.contains_key(x),
                count <= seen.len(),
                count == count_where(seen, m, p),
                forall|o: Order| #[trigger] call_ensures(keep, (&o,), true) ==> p(o),
                forall|o: Order| #[trigger] call_ensures(keep, (&o,), false) ==> !p(o),
                forall|o: Order| call_requires(keep, (&o,)),
        {
            proof {
                assert(it.seq().unref()[it.index()] == *k);
                assert(it.seq().unref().to_set().contains(*k));
                assert(!seen.contains(*k)) by {
                    if seen.contains(*k) {
                        let i = choose|i: int| 0 <= i < seen.len() && seen[i] == *k;
                        assert(it.seq().unref()[i] == it.seq().unref()[it.index()]);
                    }
                }
                assert(m.contains_key(*k));
                assert(seen.push(*k).drop_last() =~= seen);
                assert forall|x: u128| seen.push(*k).contains(x) implies m.contains_key(x) by {
                    if x != *k {
                        let i = choose|i: int| 0 <= i < seen.push(*k).len() && seen.push(*k)[i] == x;
                        assert(seen[i] == x);
                        assert(seen.contains(x));
                    }
                }
                seen = seen.push(*k);
            }
            let o = self.orders.get(k).unwrap();
            let b = keep(o);
            if b {
                count = count + 1;
            }
        }
        proof {
            lemma_count_where(seen, m, p);
            seen.unique_seq_to_set();
            assert(seen.to_set().subset_of(m.dom()));
            vstd::set_lib::lemma_len_subset(seen.to_set(), m.dom());
            assert(seen.to_set() =~= m.dom()) by {
                if !(seen.to_set() =~= m.dom()) {
                    let x = choose|x: u128| m.dom().contains(x) && !seen.to_set().contains(x);
                    vstd::set_lib::lemma_len_subset(seen.to_set(), m.dom().remove(x));
                }
            }
            assert(seen.to_set().filter(|id: u128| p(m[id])) =~= stored_where(m, p));
        }
        count
    }
}

} // verus!
