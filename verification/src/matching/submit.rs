//! What submitting an order does to the engine, stated over its view.
use vstd::prelude::*;

use crate::matching::engine::{
    book_order, book_pos, empty_book, ensure_book, lemma_book_pos, lemma_book_pos_eq, lemma_book_pos_first,
    not_crossed, EngineView,
};
use crate::models::order::{validation_error, CreateOrderRequest, Order, OrderStatus, Side};
use crate::orderbook::book::{
    crosses, crossing_total, fill_from, id_at, lemma_crossing_total_market, lemma_match_levels_fills,
    lemma_match_levels_quantity, level_total_at, opposite, side_has, side_holds, side_total, valid_pos, BookView,
};
use crate::orderbook::price_level::{
    apply_fills_to, fills_quantity, is_done_maker, is_maker, lemma_apply_concat, lemma_apply_keeps, lemma_apply_no_fill,
    lemma_apply_single, makers_distinct, Fill,
};
use crate::orderbook::book::{
    came_from, done_set, lemma_book_after_match, lemma_book_with_order, lemma_match_levels_shape,
    lemma_side_with_order_best, side_with_order,
};

verus! {

/// The incoming order after each fill in turn, at time `now`.
pub open spec fn fill_taker(o: Order, fills: Seq<Fill>, now: i128) -> Order
    decreases fills.len(),
{
    if fills.len() == 0 {
        o
    } else {
        fill_taker(o.after_fill(fills[0].quantity, now), fills.drop_first(), now)
    }
}

/// The stored orders after every fill was applied to the order it executed
/// against.
pub open spec fn store_after_fills(m: Map<u128, Order>, fills: Seq<Fill>, now: i128) -> Map<u128, Order> {
    Map::new(|id: u128| m.contains_key(id), |id: u128| apply_fills_to(m[id], fills, now))
}

/// The smaller of two quantities.
pub open spec fn min_nat(a: nat, b: nat) -> nat {
    if a <= b {
        a
    } else {
        b
    }
}

impl EngineView {
    /// The book of `symbol`, or an empty one if there is none yet.
    pub open spec fn book_for(self, symbol: Seq<char>) -> BookView {
        let p = book_pos(self.books, symbol);
        if p < self.books.len() {
            self.books[p as int]
        } else {
            empty_book(symbol)
        }
    }

    /// Quantity resting on the side an incoming order `r` trades against.
    pub open spec fn available(self, r: CreateOrderRequest) -> nat {
        side_total(self.book_for(r.symbol@).side(opposite(r.side)))
    }

    /// The fills that matching the incoming order `r` at time `now` produces.
    pub open spec fn submit_fills(self, r: CreateOrderRequest, now: i128) -> Seq<Fill> {
        self.book_for(r.symbol@).match_fills(r.side, r.price, r.quantity as nat, now)
    }

    /// The incoming order `r`, under id `id`, after matching at time `now`.
    pub open spec fn submit_taker(self, r: CreateOrderRequest, id: u128, now: i128) -> Order {
        fill_taker(Order::from_request(r, id, now), self.submit_fills(r, now), now)
    }

    /// The engine after accepting the valid order `r` under the fresh id `id`
    /// at time `now`: the order is matched against the other side of its
    /// symbol's book in price-time priority, the resting orders it traded with
    /// are filled, it rests in the book if it is a limit order not completely
    /// filled, it is stored, and its trades are counted.
    pub open spec fn submit_view(self, r: CreateOrderRequest, id: u128, now: i128) -> EngineView {
        let sym = r.symbol@;
        let books1 = ensure_book(self.books, sym);
        let p = book_pos(books1, sym) as int;
        let b1 = self.book_for(sym).after_match(r.side, r.price, r.quantity as nat, now);
        let taker = self.submit_taker(r, id, now);
        let b2 = if r.order_type is Limit && !taker.filled() {
            b1.with_order(taker)
        } else {
            b1
        };
        let fills = self.submit_fills(r, now);
        EngineView {
            books: books1.update(p, b2),
            orders: store_after_fills(self.orders, fills, now).insert(id, taker),
            trade_count: (self.trade_count + fills.len()) as u64,
        }
    }

    /// Submitting the valid order `r` stays within the machine's integers: the
    /// quantity resting on the other side can be summed when a market order
    /// asks for it, the trade counter can count the trades, and the price
    /// level a limit order rests at can total its quantity.
    pub open spec fn submit_fits(self, r: CreateOrderRequest) -> bool {
        validation_error(r) is None ==> {
            let b = self.book_for(r.symbol@);
            let opp = b.side(opposite(r.side));
            &&& r.order_type is Market ==> side_total(opp) <= u64::MAX
            &&& (r.order_type is Limit || side_total(opp) >= r.quantity) ==> self.trade_count + b.match_fills(
                r.side,
                r.price,
                r.quantity as nat,
                0,
            ).len() <= u64::MAX
            &&& r.order_type is Limit ==> level_total_at(b.side(r.side), r.side, r.price->0) + (r.quantity
                - min_nat(r.quantity as nat, crossing_total(opp, r.side, r.price))) <= u64::MAX
        }
    }
}

impl EngineView {
    /// The bounds `submit_within_limits` tests: a valid request may count one
    /// trade per unit of its quantity; the other side's total of a market
    /// order fits a `u64`; the level a limit order would rest at could take
    /// its whole quantity.
    pub open spec fn within_limits(self, r: CreateOrderRequest) -> bool {
        validation_error(r) is Some || {
            let b = self.book_for(r.symbol@);
            &&& self.trade_count + r.quantity <= u64::MAX
            &&& r.order_type is Market ==> side_total(b.side(opposite(r.side))) <= u64::MAX
            &&& r.order_type is Limit ==> level_total_at(b.side(r.side), r.side, r.price->0) + r.quantity
                <= u64::MAX
        }
    }
}

/// Filling an order that had no fill yet with positive fills that do not
/// exceed its quantity leaves it with their total filled, partially filled if
/// that is less than its quantity and filled otherwise.
pub proof fn lemma_fill_taker(o: Order, fills: Seq<Fill>, now: i128)
    requires
        o.filled_quantity + fills_quantity(fills) <= o.quantity,
        forall|j: int| 0 <= j < fills.len() ==> (#[trigger] fills[j]).quantity > 0,
    ensures
        ({
            let t = fill_taker(o, fills, now);
            &&& t.filled_quantity == o.filled_quantity + fills_quantity(fills)
            &&& t.id == o.id
            &&& t.symbol == o.symbol
            &&& t.side == o.side
            &&& t.order_type == o.order_type
            &&& t.price == o.price
            &&& t.quantity == o.quantity
            &&& t.created_at == o.created_at
            &&& t.updated_at == if fills.len() == 0 { o.updated_at } else { now }
            &&& t.status == if fills.len() == 0 {
                o.status
            } else if t.filled_quantity >= t.quantity {
                OrderStatus::Filled
            } else {
                OrderStatus::PartialFill
            }
        }),
    decreases fills.len(),
{
    if fills.len() > 0 {
        let o1 = o.after_fill(fills[0].quantity, now);
        assert(fills_quantity(fills) == fills[0].quantity + fills_quantity(fills.drop_first()));
        assert forall|j: int| 0 <= j < fills.drop_first().len() implies (#[trigger] fills.drop_first()[j]).quantity > 0 by {
            assert(fills.drop_first()[j] == fills[j + 1]);
        }
        lemma_fill_taker(o1, fills.drop_first(), now);
    }
}

/// The preconditions under which a submission is accepted and matched.
pub open spec fn submit_accepted(e: EngineView, r: CreateOrderRequest, id: u128) -> bool {
    &&& e.wf()
    &&& validation_error(r) is None
    &&& !e.orders.contains_key(id)
    &&& r.order_type is Market ==> e.available(r) >= r.quantity
    &&& e.submit_fits(r)
}

/// The facts about a submission that the proofs of its effects share.
pub proof fn lemma_submit_facts(e: EngineView, r: CreateOrderRequest, id: u128, now: i128)
    requires
        e.wf(),
        validation_error(r) is None,
        r.order_type is Market ==> e.available(r) >= r.quantity,
    ensures
        ({
            let sym = r.symbol@;
            let books1 = ensure_book(e.books, sym);
            let p = book_pos(books1, sym) as int;
            let b = e.book_for(sym);
            let levels = b.side(opposite(r.side));
            let fills = e.submit_fills(r, now);
            let taker = e.submit_taker(r, id, now);
            &&& 0 <= p < books1.len()
            &&& books1[p] == b
            &&& b.wf()
            &&& not_crossed(b)
            &&& b.symbol == sym
            &&& books1.len() == e.books.len() || (books1.len() == e.books.len() + 1 && p == e.books.len())
            &&& forall|i: int| 0 <= i < e.books.len() ==> #[trigger] books1[i] == e.books[i]
            &&& p < e.books.len() ==> e.books[p] == b
            &&& makers_distinct(fills)
            &&& fills_quantity(fills) == min_nat(r.quantity as nat, crossing_total(levels, r.side, r.price))
            &&& forall|j: int|
                0 <= j < fills.len() ==> {
                    let f = #[trigger] fills[j];
                    let y = e.orders[f.maker_id];
                    &&& f.quantity > 0
                    &&& e.orders.contains_key(f.maker_id)
                    &&& y.id == f.maker_id
                    &&& p < e.books.len()
                    &&& side_holds(levels, y, f.price)
                    &&& f.quantity <= y.remaining()
                    &&& (f.maker_done ==> f.quantity == y.remaining())
                    &&& (!f.maker_done ==> 0 < f.quantity < y.remaining())
                    &&& y.active()
                    &&& y.status_consistent()
                    &&& y.symbol@ == sym
                    &&& y.side == opposite(r.side)
                }
            &&& taker.filled_quantity == fills_quantity(fills)
            &&& taker.id == id
            &&& taker.symbol == r.symbol
            &&& taker.side == r.side
            &&& taker.order_type == r.order_type
            &&& taker.price == r.price
            &&& taker.quantity == r.quantity
            &&& taker.created_at == now
            &&& taker.updated_at == now
            &&& taker.status == if fills.len() == 0 {
                OrderStatus::Accepted
            } else if taker.filled_quantity >= taker.quantity {
                OrderStatus::Filled
            } else {
                OrderStatus::PartialFill
            }
            &&& taker.status_consistent()
            &&& r.order_type is Market ==> taker.filled()
            &&& !e.orders.contains_key(id) ==> forall|i: int|
                0 <= i < books1.len() ==> !(#[trigger] books1[i]).locations.contains_key(id)
        }),
{
    let sym = r.symbol@;
    let books1 = ensure_book(e.books, sym);
    lemma_book_pos(e.books, sym);
    lemma_book_pos(books1, sym);
    let p0 = book_pos(e.books, sym) as int;
    let p = book_pos(books1, sym) as int;
    let b = e.book_for(sym);
    if p0 < e.books.len() {
        assert(books1 == e.books);
    } else {
        assert(books1 == e.books.push(empty_book(sym)));
        assert(books1[e.books.len() as int].symbol == sym);
        if p < e.books.len() {
            assert(books1[p] == e.books[p]);
        }
        assert(p == e.books.len());
        assert(b == empty_book(sym));
        assert(b.bids =~= Seq::<crate::orderbook::price_level::LevelView>::empty());
    }
    assert(books1[p] == b);
    let levels = b.side(opposite(r.side));
    let fills = e.submit_fills(r, now);
    lemma_match_levels_fills(levels, r.side, r.price, r.quantity as nat, now);
    lemma_match_levels_quantity(levels, r.side, r.price, r.quantity as nat, now);
    assert forall|j: int| 0 <= j < fills.len() implies {
        let f = #[trigger] fills[j];
        let y = e.orders[f.maker_id];
        &&& f.quantity > 0
        &&& e.orders.contains_key(f.maker_id)
        &&& y.id == f.maker_id
        &&& p < e.books.len()
        &&& side_holds(levels, y, f.price)
        &&& f.quantity <= y.remaining()
        &&& (f.maker_done ==> f.quantity == y.remaining())
        &&& (!f.maker_done ==> 0 < f.quantity < y.remaining())
        &&& y.active()
        &&& y.status_consistent()
        &&& y.symbol@ == sym
        &&& y.side == opposite(r.side)
    } by {
        let f = fills[j];
        assert(fill_from(levels, f, r.side, r.price));
        let (i, k) = choose|i: int, k: int|
            valid_pos(levels, i, k) && #[trigger] id_at(levels, i, k) == f.maker_id && levels[i].price == f.price && {
                let o = levels[i].orders[k];
                &&& f.quantity <= o.remaining()
                &&& (f.maker_done ==> f.quantity == o.remaining())
                &&& (!f.maker_done ==> 0 < f.quantity < o.remaining())
                &&& crosses(r.side, r.price, f.price)
            };
        assert(p < e.books.len());
        let o = book_order(e.books, p, opposite(r.side), i, k);
        assert(o == levels[i].orders[k]);
        assert(e.orders.contains_key(o.id));
        assert(crate::orderbook::book::order_fits(levels[i].orders[k], opposite(r.side), levels[i].price));
    }
    let t0 = Order::from_request(r, id, now);
    lemma_fill_taker(t0, fills, now);
    if r.order_type is Market {
        lemma_crossing_total_market(levels, r.side);
    }
    assert forall|i: int| 0 <= i < books1.len() && !e.orders.contains_key(id) implies !(
        #[trigger] books1[i]).locations.contains_key(id) by {
        if books1[i].locations.contains_key(id) {
            let bi = books1[i];
            if i < e.books.len() {
                assert(bi == e.books[i]);
                assert(side_has(bi.side(bi.locations[id].0), id, bi.locations[id].1));
                let s = bi.locations[id].0;
                let (l, k) = choose|l: int, k: int|
                    valid_pos(bi.side(s), l, k) && bi.side(s)[l].price == bi.locations[id].1 && #[trigger] id_at(
                        bi.side(s),
                        l,
                        k,
                    ) == id;
                assert(book_order(e.books, i, s, l, k).id == id);
            }
        }
    }
}

/// After a submission every book is well formed and not crossed, and the
/// books still have distinct symbols.
#[verifier::spinoff_prover]
#[verifier::rlimit(60)]
pub proof fn lemma_submit_books(e: EngineView, r: CreateOrderRequest, id: u128, now: i128)
    requires
        submit_accepted(e, r, id),
    ensures
        ({
            let n = e.submit_view(r, id, now);
            &&& forall|i: int| 0 <= i < n.books.len() ==> (#[trigger] n.books[i]).wf() && not_crossed(n.books[i])
            &&& forall|i: int, j: int|
                0 <= i < j < n.books.len() ==> (#[trigger] n.books[i]).symbol != (#[trigger] n.books[j]).symbol
            &&& forall|i: int| 0 <= i < n.books.len() ==> (#[trigger] n.books[i]).symbol == ensure_book(e.books, r.symbol@)[i].symbol
        }),
{
    lemma_submit_facts(e, r, id, now);
    let sym = r.symbol@;
    let books1 = ensure_book(e.books, sym);
    let p = book_pos(books1, sym) as int;
    let b = e.book_for(sym);
    let s0 = r.side;
    let o0 = opposite(s0);
    let levels = b.side(o0);
    let fills = e.submit_fills(r, now);
    let taker = e.submit_taker(r, id, now);
    let b1 = b.after_match(s0, r.price, r.quantity as nat, now);
    let n = e.submit_view(r, id, now);
    lemma_book_after_match(b, s0, r.price, r.quantity as nat, now);
    lemma_match_levels_quantity(levels, s0, r.price, r.quantity as nat, now);
    let rest = crate::orderbook::book::match_levels(levels, s0, r.price, r.quantity as nat, now).0;
    assert(b1.side(o0) == rest);
    assert(b1.side(s0) == b.side(s0));
    let rests = r.order_type is Limit && !taker.filled();
    let b2 = if rests { b1.with_order(taker) } else { b1 };
    if rests {
        assert(!b1.locations.contains_key(id)) by {
            assert(!books1[p].locations.contains_key(id));
        }
        lemma_book_with_order(b1, taker);
        lemma_side_with_order_best(b1.side(s0), s0, taker);
    }
    assert(b2.wf());
    assert(b2.symbol == sym);
    assert(n.books == books1.update(p, b2));
    assert(not_crossed(b2)) by {
        assert(not_crossed(b));
        if rests {
            assert(b2.side(s0) == side_with_order(b.side(s0), s0, taker));
            assert(b2.side(o0) == rest);
            assert(fills_quantity(fills) < r.quantity);
        } else {
            assert(b2.side(s0) == b.side(s0));
            assert(b2.side(o0) == rest);
        }
        if s0 is Buy {
            assert(b2.bids == b2.side(s0) && b2.asks == rest && b.bids == b.side(s0) && b.asks == levels);
        } else {
            assert(b2.asks == b2.side(s0) && b2.bids == rest && b.asks == b.side(s0) && b.bids == levels);
        }
    }
    assert forall|i: int| 0 <= i < n.books.len() implies (#[trigger] n.books[i]).wf() && not_crossed(n.books[i]) by {
        if i != p {
            assert(n.books[i] == books1[i]);
            assert(i < e.books.len());
            assert(books1[i] == e.books[i]);
        }
    }
    lemma_book_pos(e.books, sym);
    assert forall|i: int| 0 <= i < n.books.len() implies (#[trigger] n.books[i]).symbol == books1[i].symbol by {}
    assert forall|i: int, j: int| 0 <= i < j < n.books.len() implies (#[trigger] n.books[i]).symbol
        != (#[trigger] n.books[j]).symbol by {
        assert(n.books[i].symbol == books1[i].symbol);
        assert(n.books[j].symbol == books1[j].symbol);
        assert(i < e.books.len());
        if j < e.books.len() {
            assert(books1[i] == e.books[i] && books1[j] == e.books[j]);
        } else {
            assert(j == p);
            assert(books1[i] == e.books[i]);
        }
    }
}

/// A stored order that no fill executed against is unchanged by a submission.
proof fn lemma_submit_untouched(e: EngineView, r: CreateOrderRequest, id: u128, now: i128, x: u128)
    requires
        submit_accepted(e, r, id),
        e.orders.contains_key(x),
        !is_maker(e.submit_fills(r, now), x),
    ensures
        e.submit_view(r, id, now).orders[x] == e.orders[x],
        x != id,
{
    assert(e.orders[x].id == x);
    lemma_apply_no_fill(e.orders[x], e.submit_fills(r, now), now);
}

/// After a submission every resting order is the stored order of its id, of
/// its book's symbol, and active.
#[verifier::spinoff_prover]
#[verifier::rlimit(100)]
pub proof fn lemma_submit_book_orders(e: EngineView, r: CreateOrderRequest, id: u128, now: i128)
    requires
        submit_accepted(e, r, id),
    ensures
        ({
            let n = e.submit_view(r, id, now);
            forall|i: int, s: Side, l: int, k: int|
                0 <= i < n.books.len() && valid_pos(n.books[i].side(s), l, k) ==> {
                    let x = #[trigger] book_order(n.books, i, s, l, k);
                    &&& n.orders.contains_key(x.id)
                    &&& n.orders[x.id] == x
                    &&& x.symbol@ == n.books[i].symbol
                    &&& x.active()
                }
        }),
{
    lemma_submit_facts(e, r, id, now);
    lemma_submit_books(e, r, id, now);
    let sym = r.symbol@;
    let books1 = ensure_book(e.books, sym);
    let p = book_pos(books1, sym) as int;
    let b = e.book_for(sym);
    let s0 = r.side;
    let o0 = opposite(s0);
    let levels = b.side(o0);
    let fills = e.submit_fills(r, now);
    let taker = e.submit_taker(r, id, now);
    let b1 = b.after_match(s0, r.price, r.quantity as nat, now);
    let n = e.submit_view(r, id, now);
    lemma_match_levels_shape(levels, s0, r.price, r.quantity as nat, now);
    let rest = crate::orderbook::book::match_levels(levels, s0, r.price, r.quantity as nat, now).0;
    assert(b1.side(o0) == rest);
    assert(b1.side(s0) == b.side(s0));
    let rests = r.order_type is Limit && !taker.filled();
    let b2 = if rests { b1.with_order(taker) } else { b1 };
    lemma_book_after_match(b, s0, r.price, r.quantity as nat, now);
    if rests {
        assert(!b1.locations.contains_key(id)) by {
            assert(!books1[p].locations.contains_key(id));
        }
        lemma_book_with_order(b1, taker);
        crate::orderbook::book::lemma_side_with_order(b1.side(s0), s0, taker);
    }
    assert(n.books == books1.update(p, b2));
    assert(b2.side(o0) == rest);
    assert forall|i: int, s: Side, l: int, k: int|
        0 <= i < n.books.len() && valid_pos(n.books[i].side(s), l, k) implies {
        let x = #[trigger] book_order(n.books, i, s, l, k);
        &&& n.orders.contains_key(x.id)
        &&& n.orders[x.id] == x
        &&& x.symbol@ == n.books[i].symbol
        &&& x.active()
    } by {
        let x = book_order(n.books, i, s, l, k);
        if i != p {
            assert(i < e.books.len());
            assert(n.books[i] == e.books[i]);
            assert(x == book_order(e.books, i, s, l, k));
            assert(e.orders.contains_key(x.id) && e.orders[x.id] == x);
            if is_maker(fills, x.id) {
                let j = choose|j: int| 0 <= j < fills.len() && fills[j].maker_id == x.id;
                assert(e.orders[fills[j].maker_id].symbol@ == sym);
                assert(e.books[i].symbol != sym) by {
                    lemma_book_pos(books1, sym);
                    if i < p {
                        assert(books1[i] == e.books[i]);
                    } else {
                        assert(n.books[i].symbol != n.books[p].symbol);
                    }
                }
            }
            lemma_submit_untouched(e, r, id, now, x.id);
        } else if s == o0 {
            assert(n.books[p].side(s) == rest);
            assert(x == rest[l].orders[k]);
            assert(came_from(levels, x, rest[l].price, fills, now));
            let (i0, k0) = choose|i0: int, k0: int|
                valid_pos(levels, i0, k0) && levels[i0].price == rest[l].price && x == apply_fills_to(
                    #[trigger] levels[i0].orders[k0],
                    fills,
                    now,
                );
            let y = levels[i0].orders[k0];
            assert(p < e.books.len()) by {
                if p >= e.books.len() {
                    assert(levels.len() == 0);
                }
            }
            assert(y == book_order(e.books, p, o0, i0, k0));
            assert(e.orders.contains_key(y.id) && e.orders[y.id] == y);
            lemma_apply_keeps(y, fills, now);
            assert(x.id == y.id);
            assert(n.orders[x.id] == apply_fills_to(e.orders[y.id], fills, now));
            assert(!is_done_maker(fills, x.id));
            if is_maker(fills, y.id) {
                let j = choose|j: int| 0 <= j < fills.len() && fills[j].maker_id == y.id;
                lemma_apply_single(y, fills, j, now);
                assert(!fills[j].maker_done);
            } else {
                lemma_apply_no_fill(y, fills, now);
            }
        } else {
            assert(s == s0);
            if rests {
                assert(n.books[p].side(s) == side_with_order(b.side(s0), s0, taker));
                let nl = side_with_order(b.side(s0), s0, taker);
                assert(id_at(nl, l, k) == x.id);
                if x == taker && nl[l].price == taker.price->0 {
                } else {
                    assert(side_holds(b.side(s0), x, nl[l].price));
                }
            } else {
                assert(n.books[p].side(s) == b.side(s0));
                assert(side_holds(b.side(s0), x, b.side(s0)[l].price));
            }
            if x != taker || !rests {
                let pr = n.books[p].side(s)[l].price;
                assert(side_holds(b.side(s0), x, pr));
                let (a, c) = choose|a: int, c: int|
                    valid_pos(b.side(s0), a, c) && b.side(s0)[a].price == pr && #[trigger] b.side(s0)[a].orders[c] == x;
                assert(p < e.books.len()) by {
                    if p >= e.books.len() {
                        assert(b.side(s0).len() == 0);
                    }
                }
                assert(x == book_order(e.books, p, s0, a, c));
                assert(e.orders.contains_key(x.id) && e.orders[x.id] == x);
                assert(crate::orderbook::book::order_fits(b.side(s0)[a].orders[c], s0, b.side(s0)[a].price));
                if is_maker(fills, x.id) {
                    let j = choose|j: int| 0 <= j < fills.len() && fills[j].maker_id == x.id;
                    assert(e.orders[fills[j].maker_id].side == o0);
                }
                lemma_submit_untouched(e, r, id, now, x.id);
            }
        }
    }
}

/// After a submission every stored order is keyed by its id, has a positive
/// quantity and a consistent status, and rests in its symbol's book exactly
/// while it is active.
#[verifier::spinoff_prover]
#[verifier::rlimit(100)]
pub proof fn lemma_submit_store(e: EngineView, r: CreateOrderRequest, id: u128, now: i128)
    requires
        submit_accepted(e, r, id),
    ensures
        ({
            let n = e.submit_view(r, id, now);
            forall|x: u128|
                #[trigger] n.orders.contains_key(x) ==> {
                    let o = n.orders[x];
                    &&& o.id == x
                    &&& o.quantity > 0
                    &&& o.status_consistent()
                    &&& o.active() ==> book_pos(n.books, o.symbol@) < n.books.len() && n.books[book_pos(
                        n.books,
                        o.symbol@,
                    ) as int].locations.contains_key(x)
                }
        }),
{
    lemma_submit_facts(e, r, id, now);
    lemma_submit_books(e, r, id, now);
    let sym = r.symbol@;
    let books1 = ensure_book(e.books, sym);
    let p = book_pos(books1, sym) as int;
    let b = e.book_for(sym);
    let s0 = r.side;
    let o0 = opposite(s0);
    let levels = b.side(o0);
    let fills = e.submit_fills(r, now);
    let taker = e.submit_taker(r, id, now);
    let b1 = b.after_match(s0, r.price, r.quantity as nat, now);
    let n = e.submit_view(r, id, now);
    let rests = r.order_type is Limit && !taker.filled();
    let b2 = if rests { b1.with_order(taker) } else { b1 };
    assert(n.books == books1.update(p, b2));
    assert(n.books[p] == b2);
    assert(b1.locations == b.locations.remove_keys(done_set(fills)));
    assert(forall|x: u128| #[trigger] b1.locations.contains_key(x) ==> b2.locations.contains_key(x));
    lemma_book_pos(books1, sym);
    lemma_book_pos_eq(books1, n.books, sym);
    assert(book_pos(n.books, sym) == p);
    assert forall|x: u128| #[trigger] n.orders.contains_key(x) implies {
        let o = n.orders[x];
        &&& o.id == x
        &&& o.quantity > 0
        &&& o.status_consistent()
        &&& o.active() ==> book_pos(n.books, o.symbol@) < n.books.len() && n.books[book_pos(
            n.books,
            o.symbol@,
        ) as int].locations.contains_key(x)
    } by {
        if x == id {
            assert(n.orders[x] == taker);
            if taker.active() {
                assert(rests);
                assert(b2.locations.contains_key(id));
            }
        } else {
            let y = e.orders[x];
            assert(n.orders[x] == apply_fills_to(y, fills, now));
            assert(y.id == x);
            if is_maker(fills, x) {
                let j = choose|j: int| 0 <= j < fills.len() && fills[j].maker_id == x;
                lemma_apply_single(y, fills, j, now);
                let o = n.orders[x];
                if o.active() {
                    assert(!fills[j].maker_done);
                    assert(!is_done_maker(fills, x)) by {
                        if is_done_maker(fills, x) {
                            let j2 = choose|j2: int| 0 <= j2 < fills.len() && fills[j2].maker_id == x && fills[j2].maker_done;
                            assert(j2 == j);
                        }
                    }
                    assert(y.symbol@ == sym);
                    assert(p < e.books.len());
                    assert(book_pos(e.books, sym) == p) by {
                        lemma_book_pos(e.books, sym);
                    }
                    assert(e.books[p].locations.contains_key(x));
                    assert(b.locations.contains_key(x));
                    assert(!done_set(fills).contains(x));
                    assert(b1.locations.contains_key(x));
                }
            } else {
                lemma_submit_untouched(e, r, id, now, x);
                let o = n.orders[x];
                if o.active() {
                    let q = book_pos(e.books, y.symbol@) as int;
                    lemma_book_pos(e.books, y.symbol@);
                    assert(q < e.books.len());
                    assert(forall|j: int| 0 <= j < q ==> #[trigger] books1[j] == e.books[j]);
                    lemma_book_pos_first(books1, y.symbol@, q);
                    lemma_book_pos_eq(books1, n.books, y.symbol@);
                    if q == p {
                        assert(e.books[p] == b);
                        assert(b.locations.contains_key(x));
                        assert(!is_done_maker(fills, x)) by {
                            if is_done_maker(fills, x) {
                                let j2 = choose|j2: int| 0 <= j2 < fills.len() && fills[j2].maker_id == x && fills[j2].maker_done;
                                assert(is_maker(fills, x));
                            }
                        }
                        assert(b1.locations.contains_key(x));
                    } else {
                        assert(n.books[q] == books1[q]);
                        assert(books1[q] == e.books[q]);
                    }
                }
            }
        }
    }
}

/// Accepting an order keeps the engine consistent.
pub proof fn lemma_submit_wf(e: EngineView, r: CreateOrderRequest, id: u128, now: i128)
    requires
        submit_accepted(e, r, id),
    ensures
        e.submit_view(r, id, now).wf(),
{
    lemma_submit_books(e, r, id, now);
    lemma_submit_book_orders(e, r, id, now);
    lemma_submit_store(e, r, id, now);
    let n = e.submit_view(r, id, now);
    assert(n.orders.dom() =~= e.orders.dom().insert(id));
}

/// When an accepted limit order is not completely filled, the book after
/// matching can take it: the book is well formed, the order fits its side and
/// price, its id is not resting yet, and its level can total the quantity.
pub proof fn lemma_submit_rest_ok(e: EngineView, r: CreateOrderRequest, id: u128, now: i128)
    requires
        submit_accepted(e, r, id),
    ensures
        ({
            let b1 = e.book_for(r.symbol@).after_match(r.side, r.price, r.quantity as nat, now);
            let taker = e.submit_taker(r, id, now);
            &&& b1.wf()
            &&& b1.symbol == r.symbol@
            &&& (r.order_type is Limit && !taker.filled()) ==> {
                &&& taker.price is Some
                &&& crate::orderbook::book::order_fits(taker, taker.side, taker.price->0)
                &&& !b1.locations.contains_key(taker.id)
                &&& level_total_at(b1.side(taker.side), taker.side, taker.price->0) + taker.remaining() <= u64::MAX
            }
        }),
{
    lemma_submit_facts(e, r, id, now);
    let sym = r.symbol@;
    let books1 = ensure_book(e.books, sym);
    let p = book_pos(books1, sym) as int;
    let b = e.book_for(sym);
    lemma_book_after_match(b, r.side, r.price, r.quantity as nat, now);
    let b1 = b.after_match(r.side, r.price, r.quantity as nat, now);
    assert(b1.side(r.side) == b.side(r.side));
    assert(!books1[p].locations.contains_key(id));
}

/// An accepted submission's trades can be counted.
pub proof fn lemma_submit_count(e: EngineView, r: CreateOrderRequest, id: u128, now: i128)
    requires
        submit_accepted(e, r, id),
    ensures
        e.trade_count + e.submit_fills(r, now).len() <= u64::MAX,
{
    let b = e.book_for(r.symbol@);
    crate::orderbook::book::lemma_match_levels_time(b.side(opposite(r.side)), r.side, r.price, r.quantity as nat, now, 0);
}

/// Fills that are all positive number no more than their total.
proof fn lemma_fills_len(fills: Seq<Fill>)
    requires
        forall|j: int| 0 <= j < fills.len() ==> (#[trigger] fills[j]).quantity > 0,
    ensures
        fills.len() <= fills_quantity(fills),
    decreases fills.len(),
{
    if fills.len() > 0 {
        assert(fills[0].quantity > 0);
        assert forall|j: int| 0 <= j < fills.drop_first().len() implies (#[trigger] fills.drop_first()[j]).quantity > 0 by {
            assert(fills.drop_first()[j] == fills[j + 1]);
        }
        lemma_fills_len(fills.drop_first());
    }
}

/// A valid submission makes no more fills than the quantity it asks for, at
/// whatever time it is matched.
pub proof fn lemma_fill_count(e: EngineView, r: CreateOrderRequest, now: i128)
    requires
        e.wf(),
        validation_error(r) is None,
        r.order_type is Market ==> e.available(r) >= r.quantity,
    ensures
        e.submit_fills(r, now).len() <= r.quantity,
{
    lemma_submit_facts(e, r, 0, now);
    lemma_fills_len(e.submit_fills(r, now));
}

/// One more fill on the incoming order: after the first `j` fills it keeps
/// its identity, has their total filled, has room for fill `j`, and taking
/// fill `j` is one more `after_fill`.
pub proof fn lemma_taker_step(o: Order, fills: Seq<Fill>, j: int, now: i128)
    requires
        o.filled_quantity + fills_quantity(fills) <= o.quantity,
        forall|a: int| 0 <= a < fills.len() ==> (#[trigger] fills[a]).quantity > 0,
        0 <= j < fills.len(),
    ensures
        ({
            let t = fill_taker(o, fills.subrange(0, j), now);
            &&& t.id == o.id
            &&& t.side == o.side
            &&& t.symbol == o.symbol
            &&& t.filled_quantity == o.filled_quantity + fills_quantity(fills.subrange(0, j))
            &&& t.filled_quantity + fills[j].quantity <= o.quantity
            &&& fill_taker(o, fills.subrange(0, j + 1), now) == t.after_fill(fills[j].quantity, now)
            &&& fills_quantity(fills.subrange(0, j + 1)) == fills_quantity(fills.subrange(0, j)) + fills[j].quantity
        }),
{
    let pre = fills.subrange(0, j);
    let one = seq![fills[j]];
    let post = fills.subrange(0, j + 1);
    let rest = fills.subrange(j + 1, fills.len() as int);
    assert(pre + one =~= post);
    assert(post + rest =~= fills);
    crate::orderbook::price_level::lemma_sum_concat(pre, one);
    crate::orderbook::price_level::lemma_sum_concat(post, rest);
    assert(one.drop_first() =~= Seq::<Fill>::empty());
    assert(fills_quantity(one) == fills[j].quantity + fills_quantity(one.drop_first()));
    assert forall|a: int| 0 <= a < pre.len() implies (#[trigger] pre[a]).quantity > 0 by {
        assert(pre[a] == fills[a]);
    }
    lemma_fill_taker(o, pre, now);
    lemma_fill_taker_concat(o, pre, one, now);
    let t = fill_taker(o, pre, now);
    assert(fill_taker(t, one, now) == fill_taker(t.after_fill(fills[j].quantity, now), one.drop_first(), now));
}

/// Applying one more fill to the stored orders: before it the order it
/// executes against is as stored (no earlier fill touched it), and after it
/// that order alone has taken the fill.
pub proof fn lemma_store_step(m: Map<u128, Order>, fills: Seq<Fill>, j: int, now: i128)
    requires
        0 <= j < fills.len(),
        makers_distinct(fills),
        m.contains_key(fills[j].maker_id),
        forall|x: u128| #[trigger] m.contains_key(x) ==> m[x].id == x,
    ensures
        ({
            let f = fills[j];
            let before = store_after_fills(m, fills.subrange(0, j), now);
            &&& before.dom() == m.dom()
            &&& before[f.maker_id] == m[f.maker_id]
            &&& store_after_fills(m, fills.subrange(0, j + 1), now) == before.insert(
                f.maker_id,
                before[f.maker_id].after_fill(f.quantity, now),
            )
        }),
{
    let f = fills[j];
    let pre = fills.subrange(0, j);
    let one = seq![f];
    let post = fills.subrange(0, j + 1);
    assert(pre + one =~= post);
    assert(!is_maker(pre, f.maker_id)) by {
        if is_maker(pre, f.maker_id) {
            let a = choose|a: int| 0 <= a < pre.len() && pre[a].maker_id == f.maker_id;
            assert(pre[a] == fills[a]);
        }
    }
    lemma_apply_no_fill(m[f.maker_id], pre, now);
    let before = store_after_fills(m, pre, now);
    let after = store_after_fills(m, post, now);
    assert(one.drop_first() =~= Seq::<Fill>::empty());
    assert forall|x: u128| #[trigger] m.contains_key(x) implies after[x] == (if x == f.maker_id {
        before[x].after_fill(f.quantity, now)
    } else {
        before[x]
    }) by {
        lemma_apply_concat(m[x], pre, one, now);
        let a = apply_fills_to(m[x], pre, now);
        assert(apply_fills_to(a, one, now) == apply_fills_to(
            if f.maker_id == a.id { a.after_fill(f.quantity, now) } else { a },
            one.drop_first(),
            now,
        ));
        lemma_apply_keeps(m[x], pre, now);
    }
    assert(after =~= before.insert(f.maker_id, before[f.maker_id].after_fill(f.quantity, now)));
}

/// Filling with two runs of fills is filling with the first, then the second.
pub proof fn lemma_fill_taker_concat(o: Order, a: Seq<Fill>, b: Seq<Fill>, now: i128)
    ensures
        fill_taker(o, a + b, now) == fill_taker(fill_taker(o, a, now), b, now),
    decreases a.len(),
{
    if a.len() == 0 {
        assert(a + b =~= b);
    } else {
        assert((a + b).drop_first() =~= a.drop_first() + b);
        assert((a + b)[0] == a[0]);
        lemma_fill_taker_concat(o.after_fill(a[0].quantity, now), a.drop_first(), b, now);
    }
}

} // verus!
