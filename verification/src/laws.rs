//! What the engine promises as a whole: how matching treats prices, time and
//! quantities, what cancelling and adding undo, and what the engine keeps.
use vstd::prelude::*;

use crate::matching::counts::{cancelled_ids, matched_ids, resting_total, stored_where, was_cancelled};
use crate::matching::engine::{book_pos, ensure_book, not_crossed, submit_outcome, EngineView};
use crate::matching::submit::{lemma_submit_facts, lemma_submit_wf, min_nat, submit_accepted};
use crate::models::order::{validation_error, CreateOrderRequest, Order, OrderStatus, Side};
use crate::orderbook::book::{
    better, crosses, crossing_total, depth_infos, fill_from, id_at, insert_pos, lemma_book_with_order, lemma_insert_pos,
    lemma_match_levels_fills, lemma_match_levels_quantity, lemma_side_with_order, level_total_at, match_levels,
    opposite, order_fits, side_has, side_wf, side_with_order, side_without_at, valid_pos, BookView,
};
use crate::orderbook::price_level::{
    apply_fills_to, fills_quantity, find_id, is_maker, lemma_apply_no_fill, lemma_apply_single, lemma_find_id,
    lemma_match_queue_shape, makers_distinct, match_queue, queue_unique, sum_remaining, Fill, LevelView,
};

verus! {

/// A well formed book keeps the side an incoming order trades against sorted
/// and well formed.
proof fn lemma_opposite_wf(b: BookView, taker: Side)
    requires
        b.wf(),
    ensures
        side_wf(b.side(opposite(taker)), opposite(taker)),
{
    match taker {
        Side::Buy => {},
        Side::Sell => {},
    }
}

/// Matching fills as much as the incoming order wants or as much as rests at
/// prices that cross its limit, whichever is less; when it fills less than it
/// wants, nothing left on the other side crosses its limit.
pub proof fn law_fill_amount(b: BookView, taker: Side, limit: Option<u64>, want: nat, now: i128)
    requires
        b.wf(),
    ensures
        ({
            let opp = b.side(opposite(taker));
            let left = b.after_match(taker, limit, want, now).side(opposite(taker));
            let filled = fills_quantity(b.match_fills(taker, limit, want, now));
            &&& filled == min_nat(want, crossing_total(opp, taker, limit))
            &&& filled < want ==> left.len() == 0 || !crosses(taker, limit, left[0].price)
        }),
{
    lemma_opposite_wf(b, taker);
    lemma_match_levels_quantity(b.side(opposite(taker)), taker, limit, want, now);
    match taker {
        Side::Buy => {},
        Side::Sell => {},
    }
}

/// Every fill executes against a different resting order of the other side,
/// at the price that order rests at, and that price crosses the incoming
/// order's limit: a buyer never pays more than its limit, a seller never
/// receives less.
pub proof fn law_fills_within_limit(b: BookView, taker: Side, limit: Option<u64>, want: nat, now: i128)
    requires
        b.wf(),
    ensures
        ({
            let fills = b.match_fills(taker, limit, want, now);
            &&& makers_distinct(fills)
            &&& forall|j: int|
                0 <= j < fills.len() ==> {
                    &&& crosses(taker, limit, (#[trigger] fills[j]).price)
                    &&& side_has(b.side(opposite(taker)), fills[j].maker_id, fills[j].price)
                }
        }),
{
    let levels = b.side(opposite(taker));
    lemma_opposite_wf(b, taker);
    lemma_match_levels_fills(levels, taker, limit, want, now);
    let fills = b.match_fills(taker, limit, want, now);
    assert forall|j: int| 0 <= j < fills.len() implies {
        &&& crosses(taker, limit, (#[trigger] fills[j]).price)
        &&& side_has(levels, fills[j].maker_id, fills[j].price)
    } by {
        assert(fill_from(levels, fills[j], taker, limit));
    }
}

/// Every fill of a match is at the price of a level of the sorted side it was
/// matched against, and the fills go level by level.
proof fn lemma_fill_prices(levels: Seq<crate::orderbook::price_level::LevelView>, taker: Side, limit: Option<u64>, want: nat, now: i128)
    requires
        side_wf(levels, opposite(taker)),
    ensures
        ({
            let fills = match_levels(levels, taker, limit, want, now).1;
            &&& forall|j: int| 0 <= j < fills.len() ==> exists|i: int| 0 <= i < levels.len() && #[trigger] levels[i].price == (#[trigger] fills[j]).price
            &&& forall|a: int, c: int|
                0 <= a < c < fills.len() ==> !better(opposite(taker), (#[trigger] fills[c]).price, (#[trigger] fills[a]).price)
        }),
    decreases levels.len(),
{
    let s = opposite(taker);
    let fills = match_levels(levels, taker, limit, want, now).1;
    if want == 0 || levels.len() == 0 || !crosses(taker, limit, levels[0].price) {
    } else {
        let q = levels[0].orders;
        let p0 = levels[0].price;
        assert(queue_unique(q)) by {
            assert forall|a: int, c: int| 0 <= a < c < q.len() implies q[a].id != q[c].id by {
                assert(id_at(levels, 0, a) != id_at(levels, 0, c));
            }
        }
        let m = match_queue(q, p0, want, now);
        lemma_match_queue_shape(q, p0, want, now);
        if m.0.len() == 0 {
            let l1 = levels.drop_first();
            let w1 = (want - fills_quantity(m.1)) as nat;
            crate::orderbook::book::lemma_side_wf_drop_first(levels, s);
            lemma_fill_prices(l1, taker, limit, w1, now);
            let r = match_levels(l1, taker, limit, w1, now).1;
            assert(fills == m.1 + r);
            assert forall|j: int| 0 <= j < fills.len() implies exists|i: int| 0 <= i < levels.len() && #[trigger] levels[i].price == (#[trigger] fills[j]).price by {
                if j < m.1.len() {
                    assert(fills[j] == m.1[j]);
                    assert(levels[0].price == fills[j].price);
                } else {
                    assert(fills[j] == r[j - m.1.len()]);
                    let i = choose|i: int| 0 <= i < l1.len() && #[trigger] l1[i].price == r[j - m.1.len()].price;
                    assert(levels[i + 1] == l1[i]);
                }
            }
            assert forall|a: int, c: int| 0 <= a < c < fills.len() implies !better(s, (#[trigger] fills[c]).price, (#[trigger] fills[a]).price) by {
                if c < m.1.len() {
                    assert(fills[a] == m.1[a] && fills[c] == m.1[c]);
                } else if a >= m.1.len() {
                    assert(fills[a] == r[a - m.1.len()] && fills[c] == r[c - m.1.len()]);
                } else {
                    assert(fills[a] == m.1[a]);
                    assert(fills[c] == r[c - m.1.len()]);
                    let i = choose|i: int| 0 <= i < l1.len() && #[trigger] l1[i].price == r[c - m.1.len()].price;
                    assert(levels[i + 1] == l1[i]);
                    assert(better(s, levels[0].price, levels[i + 1].price));
                }
            }
        } else {
            assert(fills == m.1);
        }
    }
}

/// Price priority: the fills of one incoming order go from the best resting
/// price to worse ones, never back to a better price.
pub proof fn law_fills_in_price_priority(b: BookView, taker: Side, limit: Option<u64>, want: nat, now: i128)
    requires
        b.wf(),
    ensures
        ({
            let fills = b.match_fills(taker, limit, want, now);
            forall|a: int, c: int|
                0 <= a < c < fills.len() ==> !better(opposite(taker), (#[trigger] fills[c]).price, (#[trigger] fills[a]).price)
        }),
{
    lemma_opposite_wf(b, taker);
    lemma_fill_prices(b.side(opposite(taker)), taker, limit, want, now);
}

/// Time priority: within one price level the orders are filled oldest first;
/// every order but the last one filled was filled completely.
pub proof fn law_level_fills_oldest_first(q: Seq<Order>, price: u64, want: nat, now: i128)
    requires
        queue_unique(q),
    ensures
        ({
            let fills = match_queue(q, price, want, now).1;
            &&& fills.len() <= q.len()
            &&& forall|j: int| 0 <= j < fills.len() ==> (#[trigger] fills[j]).maker_id == q[j].id && fills[j].price == price
            &&& forall|j: int| 0 <= j < fills.len() - 1 ==> (#[trigger] fills[j]).maker_done
        }),
{
    lemma_match_queue_shape(q, price, want, now);
}

/// A market order is filled completely or not at all: when it is accepted it
/// ends up filled for its whole quantity; when it is refused, no stored order
/// and no trade count changes.
pub proof fn law_market_all_or_nothing(
    e: EngineView,
    n: EngineView,
    r: CreateOrderRequest,
    result: Result<crate::models::order::SubmitOrderResponse, crate::error::AppError>,
    id: u128,
    now: i128,
)
    requires
        e.wf(),
        r.order_type is Market,
        submit_outcome(e, n, r, result, id, now),
    ensures
        result is Ok ==> {
            &&& n.orders.contains_key(id)
            &&& n.orders[id].filled_quantity == r.quantity
            &&& n.orders[id].status == OrderStatus::Filled
            &&& fills_quantity(e.submit_fills(r, now)) == r.quantity
        },
        result is Err ==> n.orders == e.orders && n.trade_count == e.trade_count,
        validation_error(r) is None ==> {
            &&& (result is Err <==> e.available(r) < r.quantity)
            &&& result is Err ==> {
                &&& result == Err::<crate::models::order::SubmitOrderResponse, crate::error::AppError>(
                    crate::error::AppError::InsufficientLiquidity {
                        available: e.available(r) as u64,
                        requested: r.quantity,
                    },
                )
                &&& n.books == ensure_book(e.books, r.symbol@)
            }
        },
{
    if result is Ok {
        lemma_submit_facts(e, r, id, now);
        let levels = e.book_for(r.symbol@).side(opposite(r.side));
        crate::orderbook::book::lemma_crossing_total_market(levels, r.side);
        assert(n.orders[id] == e.submit_taker(r, id, now));
    }
}

/// A cancelled order is final: it is stored as cancelled, rests in no book,
/// every other stored order is unchanged and the engine stays consistent (so
/// cancelling it again finds no active order).
pub proof fn law_cancel_is_final(e: EngineView, id: u128, now: i128)
    requires
        e.wf(),
        e.orders.contains_key(id),
        e.orders[id].active(),
    ensures
        ({
            let n = e.cancel_view(id, now);
            &&& n.wf()
            &&& n.orders.dom() == e.orders.dom()
            &&& n.orders[id].status == OrderStatus::Cancelled
            &&& forall|x: u128| #[trigger] n.orders.contains_key(x) && x != id ==> n.orders[x] == e.orders[x]
            &&& forall|i: int| 0 <= i < n.books.len() ==> !(#[trigger] n.books[i]).locations.contains_key(id)
        }),
{
    crate::matching::engine::lemma_cancel_wf(e, id, now);
    let n = e.cancel_view(id, now);
    assert(n.orders.dom() =~= e.orders.dom());
    assert forall|i: int| 0 <= i < n.books.len() implies !(#[trigger] n.books[i]).locations.contains_key(id) by {
        if n.books[i].locations.contains_key(id) {
            crate::matching::counts::lemma_location_stored(n, i, id);
        }
    }
}

/// An accepted order conserves quantity: the incoming order is filled by the
/// total of its fills, each resting order it traded with is filled by exactly
/// its fill, every other stored order is unchanged, no stored order is
/// forgotten, and one trade is counted per fill.
pub proof fn law_submit_conserves(e: EngineView, r: CreateOrderRequest, id: u128, now: i128)
    requires
        submit_accepted(e, r, id),
    ensures
        ({
            let n = e.submit_view(r, id, now);
            let fills = e.submit_fills(r, now);
            &&& n.wf()
            &&& n.orders.dom() == e.orders.dom().insert(id)
            &&& n.orders[id].filled_quantity == fills_quantity(fills)
            &&& forall|j: int|
                0 <= j < fills.len() ==> n.orders[(#[trigger] fills[j]).maker_id].filled_quantity
                    == e.orders[fills[j].maker_id].filled_quantity + fills[j].quantity
            &&& forall|x: u128|
                #[trigger] e.orders.contains_key(x) && !is_maker(fills, x) ==> n.orders[x] == e.orders[x]
            &&& n.trade_count == e.trade_count + fills.len()
        }),
{
    lemma_submit_facts(e, r, id, now);
    lemma_submit_wf(e, r, id, now);
    crate::matching::submit::lemma_submit_count(e, r, id, now);
    let n = e.submit_view(r, id, now);
    let fills = e.submit_fills(r, now);
    assert(n.orders.dom() =~= e.orders.dom().insert(id));
    assert forall|j: int| 0 <= j < fills.len() implies n.orders[(#[trigger] fills[j]).maker_id].filled_quantity
        == e.orders[fills[j].maker_id].filled_quantity + fills[j].quantity by {
        let x = fills[j].maker_id;
        lemma_apply_single(e.orders[x], fills, j, now);
    }
    assert forall|x: u128| #[trigger] e.orders.contains_key(x) && !is_maker(fills, x) implies n.orders[x] == e.orders[x] by {
        lemma_apply_no_fill(e.orders[x], fills, now);
    }
}

/// Adding an order to a book and then removing it gives the book back; in
/// between, the book finds the order under its id.
pub proof fn law_add_then_remove(b: BookView, o: Order)
    requires
        b.wf(),
        o.price is Some,
        order_fits(o, o.side, o.price->0),
        !b.locations.contains_key(o.id),
        level_total_at(b.side(o.side), o.side, o.price->0) + o.remaining() <= u64::MAX,
    ensures
        b.with_order(o).wf(),
        b.with_order(o).find(o.id) == Some(o),
        b.with_order(o).without(o.id) == b,
{
    let s0 = o.side;
    let p = o.price->0;
    let levels = b.side(s0);
    let nb = b.with_order(o);
    let nl = side_with_order(levels, s0, o);
    let n = insert_pos(levels, s0, p) as int;
    lemma_book_with_order(b, o);
    assert forall|i: int, k: int| valid_pos(levels, i, k) implies #[trigger] id_at(levels, i, k) != o.id by {
        assert(b.locations.contains_key(id_at(b.side(s0), i, k)));
    }
    lemma_side_with_order(levels, s0, o);
    lemma_insert_pos(levels, s0, p);
    assert(nb.side(s0) == nl);
    assert(nb.locations[o.id] == (s0, p));
    // the new book finds the order's level where the old one would put it
    assert(nl[n].price == p);
    assert forall|j: int| 0 <= j < n implies #[trigger] nl[j] == levels[j] by {}
    lemma_insert_pos(nl, s0, p);
    let i = insert_pos(nl, s0, p) as int;
    assert(i == n) by {
        if i < n {
            assert(better(s0, nl[i].price, p));
        }
        if i > n {
            assert(better(s0, nl[n].price, p));
        }
    }
    let q = nl[n].orders;
    lemma_find_id(q, o.id);
    let k = find_id(q, o.id) as int;
    if n < levels.len() && levels[n].price == p {
        let last = levels[n].orders.len() as int;
        assert(q == levels[n].orders.push(o));
        assert(q[last].id == o.id);
        assert(k == last) by {
            if k < last {
                assert(id_at(levels, n, k) == o.id);
            }
        }
        assert(q.remove(k) =~= levels[n].orders);
        assert(side_without_at(nl, n, k) =~= levels);
    } else {
        assert(q == seq![o]);
        assert(k == 0);
        assert(q.remove(k) =~= Seq::<Order>::empty());
        assert(side_without_at(nl, n, k) =~= levels);
    }
    assert(nb.find(o.id) == Some(o));
    assert(nb.without(o.id).locations =~= b.locations);
    match s0 {
        Side::Buy => {
            assert(nb.without(o.id) =~= b);
        },
        Side::Sell => {
            assert(nb.without(o.id) =~= b);
        },
    }
}

/// At one price level, adding an order at the back of the queue and then
/// removing it by id gives the queue back, oldest first as before.
pub proof fn law_level_add_then_remove(q: Seq<Order>, o: Order)
    requires
        forall|j: int| 0 <= j < q.len() ==> (#[trigger] q[j]).id != o.id,
    ensures
        find_id(q.push(o), o.id) == q.len(),
        q.push(o).remove(find_id(q.push(o), o.id) as int) == q,
{
    let p = q.push(o);
    lemma_find_id(p, o.id);
    let k = find_id(p, o.id) as int;
    assert(p[q.len() as int].id == o.id);
    if k < q.len() {
        assert(p[k] == q[k]);
    }
    assert(p.remove(q.len() as int) =~= q);
}

/// The books hold exactly the active orders: an order rests in a book if and
/// only if it is stored and neither filled nor cancelled, so the number of
/// resting orders is the number of active ones.
pub proof fn law_books_hold_the_active_orders(e: EngineView)
    requires
        e.wf(),
    ensures
        resting_total(e.books) == stored_where(e.orders, |o: Order| o.active()).len(),
        forall|i: int, id: u128|
            0 <= i < e.books.len() && #[trigger] e.books[i].locations.contains_key(id) ==> e.orders.contains_key(id)
                && e.orders[id].active(),
        forall|id: u128|
            #[trigger] e.orders.contains_key(id) && e.orders[id].active() ==> book_pos(e.books, e.orders[id].symbol@)
                < e.books.len() && e.books[book_pos(e.books, e.orders[id].symbol@) as int].locations.contains_key(id),
{
    crate::matching::counts::lemma_resting_are_active(e);
    assert forall|i: int, id: u128|
        0 <= i < e.books.len() && #[trigger] e.books[i].locations.contains_key(id) implies e.orders.contains_key(id)
            && e.orders[id].active() by {
        crate::matching::counts::lemma_location_stored(e, i, id);
    }
}

/// Matching that fills nothing leaves the side it was matched against as it
/// was.
proof fn lemma_no_fill_no_change(levels: Seq<LevelView>, taker: Side, limit: Option<u64>, want: nat, now: i128)
    requires
        side_wf(levels, opposite(taker)),
        match_levels(levels, taker, limit, want, now).1.len() == 0,
    ensures
        match_levels(levels, taker, limit, want, now).0 == levels,
{
    if want == 0 || levels.len() == 0 || !crosses(taker, limit, levels[0].price) {
    } else {
        assert(levels[0].orders.len() > 0);
        let m = match_queue(levels[0].orders, levels[0].price, want, now);
        assert(m.1.len() > 0);
        if m.0.len() == 0 {
            let rest = match_levels(
                levels.drop_first(),
                taker,
                limit,
                (want - fills_quantity(m.1)) as nat,
                now,
            );
            assert((m.1 + rest.1).len() > 0);
        }
    }
}

/// Cancelling undoes resting: a limit order that trades with nothing rests in
/// its symbol's book, and cancelling it gives every book back as it was (the
/// symbol's book stays, empty, if the order created it).
pub proof fn law_cancel_undoes_resting(e: EngineView, r: CreateOrderRequest, id: u128, now: i128, later: i128)
    requires
        submit_accepted(e, r, id),
        r.order_type is Limit,
        e.submit_fills(r, now).len() == 0,
    ensures
        e.submit_view(r, id, now).orders[id].active(),
        e.submit_view(r, id, now).cancel_view(id, later).books == ensure_book(e.books, r.symbol@),
{
    lemma_submit_facts(e, r, id, now);
    crate::matching::submit::lemma_submit_rest_ok(e, r, id, now);
    let sym = r.symbol@;
    let books1 = ensure_book(e.books, sym);
    let p = book_pos(books1, sym) as int;
    let b = e.book_for(sym);
    let taker = e.submit_taker(r, id, now);
    let opp = opposite(r.side);
    lemma_opposite_wf(b, r.side);
    lemma_no_fill_no_change(b.side(opp), r.side, r.price, r.quantity as nat, now);
    let b1 = b.after_match(r.side, r.price, r.quantity as nat, now);
    assert(crate::orderbook::book::done_set(Seq::<crate::orderbook::price_level::Fill>::empty()) =~= Set::<u128>::empty());
    assert(b1.locations =~= b.locations);
    match r.side {
        Side::Buy => {
            assert(b1 =~= b);
        },
        Side::Sell => {
            assert(b1 =~= b);
        },
    }
    assert(!taker.filled());
    law_add_then_remove(b1, taker);
    let n = e.submit_view(r, id, now);
    assert(n.books == books1.update(p, b1.with_order(taker)));
    assert(n.orders[id] == taker);
    crate::matching::engine::lemma_book_pos(books1, sym);
    crate::matching::engine::lemma_book_pos_eq(books1, n.books, sym);
    assert(n.books.update(p, b1) =~= books1);
}

/// Submitting an order touches no other symbol's book: whatever the outcome,
/// every book of another symbol is as it was, and a book that appears is the
/// order's symbol's.
pub proof fn law_submit_keeps_other_books(
    e: EngineView,
    n: EngineView,
    r: CreateOrderRequest,
    result: Result<crate::models::order::SubmitOrderResponse, crate::error::AppError>,
    id: u128,
    now: i128,
)
    requires
        e.wf(),
        !e.orders.contains_key(id),
        submit_outcome(e, n, r, result, id, now),
    ensures
        e.books.len() <= n.books.len() <= e.books.len() + 1,
        forall|i: int| 0 <= i < e.books.len() && e.books[i].symbol != r.symbol@ ==> #[trigger] n.books[i] == e.books[i],
        forall|i: int| e.books.len() <= i < n.books.len() ==> #[trigger] n.books[i].symbol == r.symbol@,
{
    if validation_error(r) is None && r.order_type is Market && e.available(r) < r.quantity {
        let books1 = ensure_book(e.books, r.symbol@);
        assert forall|i: int| 0 <= i < e.books.len() implies #[trigger] books1[i] == e.books[i] by {}
    } else if validation_error(r) is None {
        lemma_submit_facts(e, r, id, now);
        let books1 = ensure_book(e.books, r.symbol@);
        let p = book_pos(books1, r.symbol@) as int;
        assert forall|i: int| 0 <= i < e.books.len() && e.books[i].symbol != r.symbol@ implies #[trigger] n.books[i]
            == e.books[i] by {
            assert(books1[i] == e.books[i]);
            if !(r.order_type is Market && e.available(r) < r.quantity) {
                assert(i != p);
            }
        }
        assert forall|i: int| e.books.len() <= i < n.books.len() implies #[trigger] n.books[i].symbol == r.symbol@ by {
            assert(i == p);
            if !(r.order_type is Market && e.available(r) < r.quantity) {
                crate::matching::submit::lemma_submit_rest_ok(e, r, id, now);
                let taker = e.submit_taker(r, id, now);
                let b1 = e.book_for(r.symbol@).after_match(r.side, r.price, r.quantity as nat, now);
                if r.order_type is Limit && !taker.filled() {
                    assert(b1.with_order(taker).symbol == b1.symbol);
                }
            }
        }
    }
}

/// A limit order rests only once nothing on the other side crosses its price:
/// after it is accepted without being completely filled, the other side of
/// its book is empty or starts at a price it cannot trade with (a buyer
/// finds no ask at or below its price, a seller no bid at or above it), and
/// the book is not crossed.
pub proof fn law_limit_rests_only_when_uncrossable(e: EngineView, r: CreateOrderRequest, id: u128, now: i128)
    requires
        submit_accepted(e, r, id),
        r.order_type is Limit,
        !e.submit_taker(r, id, now).filled(),
    ensures
        ({
            let n = e.submit_view(r, id, now);
            let p = book_pos(n.books, r.symbol@) as int;
            let other = n.books[p].side(opposite(r.side));
            &&& 0 <= p < n.books.len()
            &&& not_crossed(n.books[p])
            &&& n.books[p].locations.contains_key(id)
            &&& other.len() == 0 || !crosses(r.side, r.price, other[0].price)
        }),
{
    lemma_submit_facts(e, r, id, now);
    lemma_submit_wf(e, r, id, now);
    crate::matching::submit::lemma_submit_rest_ok(e, r, id, now);
    let sym = r.symbol@;
    let books1 = ensure_book(e.books, sym);
    let p = book_pos(books1, sym) as int;
    let b = e.book_for(sym);
    let n = e.submit_view(r, id, now);
    let taker = e.submit_taker(r, id, now);
    law_fill_amount(b, r.side, r.price, r.quantity as nat, now);
    crate::matching::engine::lemma_book_pos(books1, sym);
    crate::matching::engine::lemma_book_pos_eq(books1, n.books, sym);
    let b1 = b.after_match(r.side, r.price, r.quantity as nat, now);
    assert(n.books[p] == b1.with_order(taker));
    assert(n.books[p].side(opposite(r.side)) == b1.side(opposite(r.side))) by {
        match r.side {
            Side::Buy => {},
            Side::Sell => {},
        }
    }
}

/// Cancelling an active order takes one order out of the books and adds one
/// to the cancelled ones; the order keeps its quantity and its fill.
pub proof fn law_cancel_counts(e: EngineView, id: u128, now: i128)
    requires
        e.wf(),
        e.orders.contains_key(id),
        e.orders[id].active(),
    ensures
        ({
            let n = e.cancel_view(id, now);
            &&& resting_total(n.books) + 1 == resting_total(e.books)
            &&& stored_where(n.orders, |o: Order| was_cancelled(o)).len() == stored_where(
                e.orders,
                |o: Order| was_cancelled(o),
            ).len() + 1
            &&& n.orders[id].quantity == e.orders[id].quantity
            &&& n.orders[id].filled_quantity == e.orders[id].filled_quantity
        }),
{
    let n = e.cancel_view(id, now);
    crate::matching::engine::lemma_cancel_wf(e, id, now);
    crate::matching::counts::lemma_resting_are_active(e);
    crate::matching::counts::lemma_resting_are_active(n);
    let act_e = stored_where(e.orders, |o: Order| o.active());
    let act_n = stored_where(n.orders, |o: Order| o.active());
    assert(act_n =~= act_e.remove(id));
    assert(act_e.contains(id));
    vstd::set_lib::lemma_len_subset(act_e, e.orders.dom());
    let c_e = stored_where(e.orders, |o: Order| was_cancelled(o));
    let c_n = stored_where(n.orders, |o: Order| was_cancelled(o));
    assert(c_n =~= c_e.insert(id));
    assert(!c_e.contains(id));
    vstd::set_lib::lemma_len_subset(c_e, e.orders.dom());
}

/// What a consistent engine reports of a book, side by side: each reported
/// level totals what remains of its orders, which is positive; every order at
/// a level is the stored, active order of its id, of the book's symbol, at
/// the level's price; bids come highest first, asks lowest first, each price
/// once; and the best bid is below the best ask.
pub proof fn law_book_report(e: EngineView, i: int, depth: nat)
    requires
        e.wf(),
        0 <= i < e.books.len(),
    ensures
        ({
            let b = e.books[i];
            let bids = depth_infos(b.bids, depth);
            let asks = depth_infos(b.asks, depth);
            &&& forall|s: Side, j: int|
                0 <= j < depth_infos(b.side(s), depth).len() ==> {
                    let info = #[trigger] depth_infos(b.side(s), depth)[j];
                    &&& info.price == b.side(s)[j].price
                    &&& info.quantity == sum_remaining(b.side(s)[j].orders)
                    &&& info.quantity > 0
                }
            &&& forall|s: Side, j: int, k: int|
                valid_pos(b.side(s), j, k) ==> {
                    let o = #[trigger] b.side(s)[j].orders[k];
                    &&& e.orders.contains_key(o.id) && e.orders[o.id] == o
                    &&& o.active()
                    &&& o.symbol@ == b.symbol
                    &&& o.side == s
                    &&& o.price == Some(b.side(s)[j].price)
                }
            &&& forall|j: int, k: int| 0 <= j < k < bids.len() ==> #[trigger] bids[j].price > #[trigger] bids[k].price
            &&& forall|j: int, k: int| 0 <= j < k < asks.len() ==> #[trigger] asks[j].price < #[trigger] asks[k].price
            &&& bids.len() > 0 && asks.len() > 0 ==> bids[0].price < asks[0].price
        }),
{
    let b = e.books[i];
    assert(b.wf() && not_crossed(b));
    assert forall|s: Side, j: int, k: int| valid_pos(b.side(s), j, k) implies {
        let o = #[trigger] b.side(s)[j].orders[k];
        &&& e.orders.contains_key(o.id) && e.orders[o.id] == o
        &&& o.active()
        &&& o.symbol@ == b.symbol
        &&& o.side == s
        &&& o.price == Some(b.side(s)[j].price)
    } by {
        assert(crate::matching::engine::book_order(e.books, i, s, j, k) == b.side(s)[j].orders[k]);
        assert(side_wf(b.side(s), s)) by {
            match s {
                Side::Buy => {},
                Side::Sell => {},
            }
        }
        assert(order_fits(b.side(s)[j].orders[k], s, b.side(s)[j].price));
    }
    assert forall|s: Side, j: int| 0 <= j < depth_infos(b.side(s), depth).len() implies {
        let info = #[trigger] depth_infos(b.side(s), depth)[j];
        &&& info.price == b.side(s)[j].price
        &&& info.quantity == sum_remaining(b.side(s)[j].orders)
        &&& info.quantity > 0
    } by {
        let lv = b.side(s);
        assert(side_wf(lv, s)) by {
            match s {
                Side::Buy => {},
                Side::Sell => {},
            }
        }
        let q = lv[j].orders;
        assert(q.len() > 0 && sum_remaining(q) <= u64::MAX);
        let o = q[0];
        assert(valid_pos(lv, j, 0));
        assert(crate::matching::engine::book_order(e.books, i, s, j, 0) == o);
        assert(e.orders[o.id].status_consistent());
        assert(o.remaining() > 0);
        assert(sum_remaining(q) == o.remaining() + sum_remaining(q.drop_first()));
    }
    let bids = depth_infos(b.bids, depth);
    let asks = depth_infos(b.asks, depth);
    assert forall|j: int, k: int| 0 <= j < k < bids.len() implies #[trigger] bids[j].price > #[trigger] bids[k].price by {
        assert(better(Side::Buy, b.bids[j].price, b.bids[k].price));
    }
    assert forall|j: int, k: int| 0 <= j < k < asks.len() implies #[trigger] asks[j].price < #[trigger] asks[k].price by {
        assert(better(Side::Sell, b.asks[j].price, b.asks[k].price));
    }
}

/// What an accepted order does to the number of resting orders: the resting
/// orders it filled completely leave the books, and it joins them itself
/// exactly when it is a limit order not completely filled.
pub proof fn law_submit_resting_count(e: EngineView, r: CreateOrderRequest, id: u128, now: i128)
    requires
        submit_accepted(e, r, id),
    ensures
        ({
            let n = e.submit_view(r, id, now);
            let done = crate::orderbook::book::done_set(e.submit_fills(r, now));
            let rests = r.order_type is Limit && !e.submit_taker(r, id, now).filled();
            &&& done.finite()
            &&& resting_total(n.books) + done.len() == resting_total(e.books) + if rests {
                1nat
            } else {
                0nat
            }
        }),
{
    lemma_submit_facts(e, r, id, now);
    lemma_submit_wf(e, r, id, now);
    let n = e.submit_view(r, id, now);
    let fills = e.submit_fills(r, now);
    let taker = e.submit_taker(r, id, now);
    let done = crate::orderbook::book::done_set(fills);
    let rests = r.order_type is Limit && !taker.filled();
    crate::matching::counts::lemma_resting_are_active(e);
    crate::matching::counts::lemma_resting_are_active(n);
    let act_e = stored_where(e.orders, |o: Order| o.active());
    let act_n = stored_where(n.orders, |o: Order| o.active());
    vstd::set_lib::lemma_len_subset(act_e, e.orders.dom());
    assert forall|x: u128| done.contains(x) implies act_e.contains(x) by {
        let j = choose|j: int| 0 <= j < fills.len() && fills[j].maker_id == x && fills[j].maker_done;
        assert(e.orders.contains_key(fills[j].maker_id));
    }
    vstd::set_lib::lemma_len_subset(done, act_e);
    let kept = act_e.difference(done);
    assert forall|x: u128| act_n.contains(x) <==> (kept.contains(x) || (rests && x == id)) by {
        if x == id {
            assert(n.orders[id] == taker);
            assert(!e.orders.contains_key(id));
        } else if e.orders.contains_key(x) {
            let y = e.orders[x];
            assert(n.orders[x] == apply_fills_to(y, fills, now));
            if is_maker(fills, x) {
                let j = choose|j: int| 0 <= j < fills.len() && fills[j].maker_id == x;
                lemma_apply_single(y, fills, j, now);
                if fills[j].maker_done {
                    assert(done.contains(x));
                } else {
                    assert(!done.contains(x)) by {
                        if done.contains(x) {
                            let j2 = choose|j2: int| 0 <= j2 < fills.len() && fills[j2].maker_id == x && fills[j2].maker_done;
                            assert(j2 == j);
                        }
                    }
                }
            } else {
                lemma_apply_no_fill(y, fills, now);
                assert(!done.contains(x));
            }
        }
    }
    vstd::set_lib::lemma_set_difference_len(act_e, done);
    assert(act_e.intersect(done) =~= done);
    if rests {
        assert(act_n =~= kept.insert(id));
        assert(!kept.contains(id));
    } else {
        assert(act_n =~= kept);
    }
}

/// An order counts as matched exactly when some of it has been filled,
/// partially or completely.
pub proof fn law_matched_means_some_fill(m: Map<u128, Order>)
    ensures
        forall|x: u128|
            #[trigger] matched_ids(m).contains(x) <==> m.contains_key(x)
                && m[x].filled_quantity > 0,
{
}

/// An order counts as cancelled exactly when its status is cancelled; a
/// filled order is not a cancelled one.
pub proof fn law_cancelled_means_cancelled_status(m: Map<u128, Order>)
    ensures
        forall|x: u128|
            #[trigger] cancelled_ids(m).contains(x) <==> m.contains_key(x)
                && m[x].status == OrderStatus::Cancelled,
        forall|x: u128|
            m.contains_key(x) && m[x].status == OrderStatus::Filled ==> !#[trigger] cancelled_ids(m).contains(x),
{
}

/// What an accepted order does to the matched and cancelled orders: every
/// resting order it traded with, whether completely or partially filled, is
/// matched afterwards; the order itself is matched exactly when it traded;
/// no order stops being matched, so the matched count does not fall; and no
/// order is cancelled by it, so the cancelled orders stay the same.
pub proof fn law_submit_matched_and_cancelled(e: EngineView, r: CreateOrderRequest, id: u128, now: i128)
    requires
        submit_accepted(e, r, id),
    ensures
        ({
            let n = e.submit_view(r, id, now);
            let fills = e.submit_fills(r, now);
            let matched_e = matched_ids(e.orders);
            let matched_n = matched_ids(n.orders);
            &&& forall|j: int| 0 <= j < fills.len() ==> matched_n.contains(#[trigger] fills[j].maker_id)
            &&& (matched_n.contains(id) <==> fills.len() > 0)
            &&& matched_e.subset_of(matched_n)
            &&& matched_e.len() <= matched_n.len()
            &&& cancelled_ids(n.orders) == cancelled_ids(e.orders)
        }),
{
    lemma_submit_facts(e, r, id, now);
    law_submit_conserves(e, r, id, now);
    let n = e.submit_view(r, id, now);
    let fills = e.submit_fills(r, now);
    let taker = e.submit_taker(r, id, now);
    let matched_e = matched_ids(e.orders);
    let matched_n = matched_ids(n.orders);
    assert(n.orders[id] == taker);
    assert forall|j: int| 0 <= j < fills.len() implies matched_n.contains(#[trigger] fills[j].maker_id) by {
        assert(fills[j].quantity > 0);
        assert(n.orders[fills[j].maker_id].filled_quantity == e.orders[fills[j].maker_id].filled_quantity
            + fills[j].quantity);
    }
    if fills.len() > 0 {
        assert(fills[0].quantity > 0);
        lemma_fills_positive_total(fills);
    }
    assert forall|x: u128| matched_e.contains(x) implies matched_n.contains(x) by {
        if is_maker(fills, x) {
            let j = choose|j: int| 0 <= j < fills.len() && fills[j].maker_id == x;
            assert(n.orders[fills[j].maker_id].filled_quantity == e.orders[fills[j].maker_id].filled_quantity
                + fills[j].quantity);
        } else {
            assert(n.orders[x] == e.orders[x]);
        }
    }
    vstd::set_lib::lemma_len_subset(matched_n, n.orders.dom());
    vstd::set_lib::lemma_len_subset(matched_e, matched_n);
    let c_e = cancelled_ids(e.orders);
    let c_n = cancelled_ids(n.orders);
    assert forall|x: u128| c_n.contains(x) <==> c_e.contains(x) by {
        if x == id {
            assert(!e.orders.contains_key(id));
        } else if e.orders.contains_key(x) {
            let y = e.orders[x];
            if is_maker(fills, x) {
                let j = choose|j: int| 0 <= j < fills.len() && fills[j].maker_id == x;
                lemma_apply_single(y, fills, j, now);
                assert(e.orders[fills[j].maker_id].active());
            } else {
                lemma_apply_no_fill(y, fills, now);
            }
        }
    }
    assert(c_n =~= c_e);
}

/// Fills that are all positive and not empty have a positive total.
proof fn lemma_fills_positive_total(fills: Seq<Fill>)
    requires
        fills.len() > 0,
        forall|j: int| 0 <= j < fills.len() ==> (#[trigger] fills[j]).quantity > 0,
    ensures
        fills_quantity(fills) > 0,
{
    assert(fills[0].quantity > 0);
}

/// The status report of an order describes that very order: its id, symbol,
/// side, type, price, quantity, fill, status and times, and what is left of
/// it (nothing, once it is filled).
pub proof fn law_status_reports_the_order(o: Order)
    ensures
        o.status_view().order_id == o.id,
        o.status_view().symbol == o.symbol,
        o.status_view().side == o.side,
        o.status_view().order_type == o.order_type,
        o.status_view().price == o.price,
        o.status_view().quantity == o.quantity,
        o.status_view().filled_quantity == o.filled_quantity,
        o.status_view().remaining_quantity + o.filled_quantity == o.quantity || (o.filled_quantity > o.quantity
            && o.status_view().remaining_quantity == 0),
        o.status_view().status == o.status,
        o.status_view().created_at == o.created_at,
        o.status_view().updated_at == o.updated_at,
{
}

/// The stored order of an accepted request keeps what the request asked
/// for, so its status report gives the request's symbol, side, type, price
/// and quantity; and trading never changes the side, type, price or quantity
/// of any stored order.
pub proof fn law_submitted_order_reports_request(e: EngineView, r: CreateOrderRequest, id: u128, now: i128)
    requires
        submit_accepted(e, r, id),
    ensures
        ({
            let n = e.submit_view(r, id, now);
            let st = n.orders[id].status_view();
            &&& n.orders.contains_key(id)
            &&& st.order_id == id
            &&& st.symbol == r.symbol
            &&& st.side == r.side
            &&& st.order_type == r.order_type
            &&& st.price == r.price
            &&& st.quantity == r.quantity
            &&& forall|x: u128|
                #[trigger] e.orders.contains_key(x) ==> n.orders[x].side == e.orders[x].side
                    && n.orders[x].order_type == e.orders[x].order_type && n.orders[x].price == e.orders[x].price
                    && n.orders[x].quantity == e.orders[x].quantity && n.orders[x].symbol == e.orders[x].symbol
        }),
{
    lemma_submit_facts(e, r, id, now);
    let n = e.submit_view(r, id, now);
    assert(n.orders[id] == e.submit_taker(r, id, now));
    assert forall|x: u128| #[trigger] e.orders.contains_key(x) implies n.orders[x].side == e.orders[x].side
        && n.orders[x].order_type == e.orders[x].order_type && n.orders[x].price == e.orders[x].price
        && n.orders[x].quantity == e.orders[x].quantity && n.orders[x].symbol == e.orders[x].symbol by {
        crate::orderbook::price_level::lemma_apply_keeps(e.orders[x], e.submit_fills(r, now), now);
    }
}

/// Which requests are valid: a request is accepted for matching exactly when
/// its symbol is not empty, its quantity is positive, a limit order names a
/// positive price and a market order names none. A request with an empty
/// symbol is refused for that, whatever its type.
pub proof fn law_validation(r: CreateOrderRequest)
    ensures
        validation_error(r) is None <==> {
            &&& r.symbol@.len() > 0
            &&& r.quantity > 0
            &&& r.order_type is Limit ==> r.price is Some && r.price->0 > 0
            &&& r.order_type is Market ==> r.price is None
        },
        r.symbol@.len() == 0 ==> validation_error(r) == Some("Symbol cannot be empty"@),
        r.symbol@.len() > 0 && r.quantity == 0 ==> validation_error(r) == Some("Quantity must be positive"@),
{
}

/// Submitting a request with an empty symbol, of either type, is refused as
/// an invalid order with the message that the symbol cannot be empty, and
/// changes nothing.
pub proof fn law_empty_symbol_refused(
    e: EngineView,
    n: EngineView,
    r: CreateOrderRequest,
    result: Result<crate::models::order::SubmitOrderResponse, crate::error::AppError>,
    id: u128,
    now: i128,
)
    requires
        r.symbol@.len() == 0,
        submit_outcome(e, n, r, result, id, now),
    ensures
        result matches Err(crate::error::AppError::InvalidOrder(m)) && m@ == "Symbol cannot be empty"@,
        n == e,
{
}

/// How many levels a report of a side holds: as many as asked for, or all of
/// them when fewer rest; asking for at least as many as there are reports
/// every level; each entry is the level at the same place, best first; and a
/// deeper report extends a shallower one.
pub proof fn law_report_depth(levels: Seq<LevelView>, depth: nat)
    ensures
        depth_infos(levels, depth).len() == min_nat(depth, levels.len()),
        depth >= levels.len() ==> depth_infos(levels, depth).len() == levels.len(),
        depth <= levels.len() ==> depth_infos(levels, depth).len() == depth,
        forall|j: int|
            0 <= j < depth_infos(levels, depth).len() ==> (#[trigger] depth_infos(levels, depth)[j]).price
                == levels[j].price && depth_infos(levels, depth)[j].quantity == sum_remaining(levels[j].orders)
                as u64,
        forall|j: int|
            0 <= j < depth_infos(levels, depth).len() ==> #[trigger] depth_infos(levels, depth + 1)[j]
                == depth_infos(levels, depth)[j],
{
}

} // verus!
