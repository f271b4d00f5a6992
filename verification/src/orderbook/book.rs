use std::collections::HashMap;
use vstd::prelude::*;

use crate::models::order::{Order, Side};
use crate::models::orderbook::{OrderBookResponse, PriceLevelInfo};
use crate::orderbook::price_level::{
    lemma_match_queue_time, is_maker, lemma_apply_concat, lemma_apply_no_fill, lemma_match_queue_shape, makers_distinct, lemma_match_queue, lemma_sum_concat, lemma_sum_push, lemma_sum_remove, lemma_find_id, find_id, apply_fills_to, fills_quantity, is_done_maker, match_queue, queue_unique,
    sum_remaining, Fill, LevelView, PriceLevel,
};

verus! {

broadcast use vstd::std_specs::hash::group_hash_axioms;

/// `a` has price priority over `b` on `side`: a higher bid or a lower ask.
pub open spec fn better(side: Side, a: u64, b: u64) -> bool {
    match side {
        Side::Buy => a > b,
        Side::Sell => a < b,
    }
}

/// The other side of the book.
pub open spec fn opposite(side: Side) -> Side {
    match side {
        Side::Buy => Side::Sell,
        Side::Sell => Side::Buy,
    }
}

/// An incoming order on `taker` side with limit `limit` (none for a market
/// order) may trade with orders resting at `price`: a buyer pays at most its
/// limit and a seller receives at least its limit.
pub open spec fn crosses(taker: Side, limit: Option<u64>, price: u64) -> bool {
    match limit {
        None => true,
        Some(l) => match taker {
            Side::Buy => price <= l,
            Side::Sell => price >= l,
        },
    }
}

/// Views of a sequence of price levels.
pub open spec fn levels_view(v: Seq<PriceLevel>) -> Seq<LevelView> {
    v.map_values(|l: PriceLevel| l@)
}

/// Levels are in strict price priority: best price first, no price twice.
pub open spec fn side_sorted(levels: Seq<LevelView>, side: Side) -> bool {
    forall|i: int, j: int|
        0 <= i < j < levels.len() ==> better(side, #[trigger] levels[i].price, #[trigger] levels[j].price)
}

/// An order may rest at `price` on `side`.
pub open spec fn order_fits(o: Order, side: Side, price: u64) -> bool {
    &&& o.price == Some(price)
    &&& o.side == side
}

/// The id of the order at position `k` of level `i`.
pub open spec fn id_at(levels: Seq<LevelView>, i: int, k: int) -> u128 {
    levels[i].orders[k].id
}

/// A valid position in the levels.
pub open spec fn valid_pos(levels: Seq<LevelView>, i: int, k: int) -> bool {
    0 <= i < levels.len() && 0 <= k < levels[i].orders.len()
}

/// No id occurs twice on one side of the book.
pub open spec fn side_unique(levels: Seq<LevelView>) -> bool {
    forall|i1: int, k1: int, i2: int, k2: int|
        valid_pos(levels, i1, k1) && valid_pos(levels, i2, k2) && (i1 != i2 || k1 != k2) ==> #[trigger] id_at(
            levels,
            i1,
            k1,
        ) != #[trigger] id_at(levels, i2, k2)
}

/// One side of the book is well formed: sorted by price priority, no empty
/// level, no id twice, every order rests at its own price on its own side,
/// and every level's total fits in a `u64`.
pub open spec fn side_wf(levels: Seq<LevelView>, side: Side) -> bool {
    &&& side_sorted(levels, side)
    &&& forall|i: int|
        0 <= i < levels.len() ==> (#[trigger] levels[i]).orders.len() > 0 && sum_remaining(levels[i].orders)
            <= u64::MAX
    &&& forall|i: int, k: int|
        valid_pos(levels, i, k) ==> order_fits(#[trigger] levels[i].orders[k], side, levels[i].price)
    &&& side_unique(levels)
}

/// Some order with id `id` rests at `price` in `levels`.
pub open spec fn side_has(levels: Seq<LevelView>, id: u128, price: u64) -> bool {
    exists|i: int, k: int| valid_pos(levels, i, k) && levels[i].price == price && #[trigger] id_at(levels, i, k) == id
}

/// Total remaining quantity over all levels.
pub open spec fn side_total(levels: Seq<LevelView>) -> nat
    decreases levels.len(),
{
    if levels.len() == 0 {
        0
    } else {
        side_total(levels.drop_last()) + sum_remaining(levels.last().orders)
    }
}

/// The best price of a side, if it has any level.
pub open spec fn best_price(levels: Seq<LevelView>) -> Option<u64> {
    if levels.len() == 0 {
        None
    } else {
        Some(levels[0].price)
    }
}

/// Remaining quantity at the best price of a side, or zero.
pub open spec fn best_quantity(levels: Seq<LevelView>) -> nat {
    if levels.len() == 0 {
        0
    } else {
        sum_remaining(levels[0].orders)
    }
}

/// The aggregated view of a level: its price and remaining quantity.
pub open spec fn level_info(level: LevelView) -> PriceLevelInfo {
    PriceLevelInfo { price: level.price, quantity: sum_remaining(level.orders) as u64 }
}

/// The first `depth` levels of a side (all of them if there are fewer),
/// aggregated, best first.
pub open spec fn depth_infos(levels: Seq<LevelView>, depth: nat) -> Seq<PriceLevelInfo> {
    let n = if depth < levels.len() { depth } else { levels.len() };
    Seq::new(n, |i: int| level_info(levels[i]))
}

/// The first `i` levels hold no more than all the levels.
pub proof fn lemma_side_total_prefix(levels: Seq<LevelView>, i: int)
    requires
        0 <= i <= levels.len(),
    ensures
        side_total(levels.subrange(0, i)) <= side_total(levels),
    decreases levels.len() - i,
{
    if i < levels.len() {
        lemma_side_total_prefix(levels, i + 1);
        assert(levels.subrange(0, i + 1).drop_last() =~= levels.subrange(0, i));
    } else {
        assert(levels.subrange(0, i) =~= levels);
    }
}

/// Number of levels with price priority over `price`.
pub open spec fn insert_pos(levels: Seq<LevelView>, side: Side, price: u64) -> nat
    decreases levels.len(),
{
    if levels.len() == 0 || !better(side, levels[0].price, price) {
        0
    } else {
        1 + insert_pos(levels.drop_first(), side, price)
    }
}

/// The side after order `o` joined it: at the back of the queue of its price
/// level, or in a new level placed by price priority.
pub open spec fn side_with_order(levels: Seq<LevelView>, side: Side, o: Order) -> Seq<LevelView> {
    let p = o.price->0;
    let i = insert_pos(levels, side, p) as int;
    if i < levels.len() && levels[i].price == p {
        levels.update(i, LevelView { price: p, orders: levels[i].orders.push(o) })
    } else {
        levels.insert(i, LevelView { price: p, orders: seq![o] })
    }
}

/// Remaining quantity resting at `price`, or zero if no level has that price.
pub open spec fn level_total_at(levels: Seq<LevelView>, side: Side, price: u64) -> nat {
    let i = insert_pos(levels, side, price) as int;
    if i < levels.len() && levels[i].price == price {
        sum_remaining(levels[i].orders)
    } else {
        0
    }
}

/// On a sorted side, `insert_pos` counts the levels with a better price: they
/// come first, and only the level right after them may have the price itself.
pub proof fn lemma_insert_pos(levels: Seq<LevelView>, side: Side, price: u64)
    requires
        side_sorted(levels, side),
    ensures
        insert_pos(levels, side, price) <= levels.len(),
        forall|j: int| 0 <= j < insert_pos(levels, side, price) ==> better(side, #[trigger] levels[j].price, price),
        forall|j: int|
            insert_pos(levels, side, price) <= j < levels.len() ==> !better(side, #[trigger] levels[j].price, price),
        forall|j: int|
            insert_pos(levels, side, price) < j < levels.len() ==> #[trigger] levels[j].price != price,
    decreases levels.len(),
{
    let n = insert_pos(levels, side, price) as int;
    if levels.len() == 0 {
    } else if !better(side, levels[0].price, price) {
        assert forall|j: int| 0 <= j < levels.len() implies !better(side, #[trigger] levels[j].price, price) by {
            if j > 0 {
                assert(better(side, levels[0].price, levels[j].price));
            }
        }
        assert forall|j: int| 0 < j < levels.len() implies #[trigger] levels[j].price != price by {
            assert(better(side, levels[0].price, levels[j].price));
        }
    } else {
        let rest = levels.drop_first();
        assert(side_sorted(rest, side)) by {
            assert forall|i: int, j: int| 0 <= i < j < rest.len() implies better(side, #[trigger] rest[i].price, #[trigger] rest[j].price) by {
                assert(rest[i] == levels[i + 1] && rest[j] == levels[j + 1]);
            }
        }
        lemma_insert_pos(rest, side, price);
        assert forall|j: int| 0 <= j < n implies better(side, #[trigger] levels[j].price, price) by {
            if j > 0 {
                assert(levels[j] == rest[j - 1]);
            }
        }
        assert forall|j: int| n <= j < levels.len() implies !better(side, #[trigger] levels[j].price, price) by {
            assert(levels[j] == rest[j - 1]);
        }
        assert forall|j: int| n < j < levels.len() implies #[trigger] levels[j].price != price by {
            assert(levels[j] == rest[j - 1]);
        }
    }
}

/// Adding an order keeps a side well formed; the new side holds the new order
/// at its price, and every order it held before, at the same price.
pub proof fn lemma_side_with_order(levels: Seq<LevelView>, side: Side, o: Order)
    requires
        side_wf(levels, side),
        o.price is Some,
        order_fits(o, side, o.price->0),
        level_total_at(levels, side, o.price->0) + o.remaining() <= u64::MAX,
        forall|i: int, k: int| valid_pos(levels, i, k) ==> #[trigger] id_at(levels, i, k) != o.id,
    ensures
        side_wf(side_with_order(levels, side, o), side),
        side_has(side_with_order(levels, side, o), o.id, o.price->0),
        forall|i: int, k: int|
            valid_pos(levels, i, k) ==> side_has(
                side_with_order(levels, side, o),
                #[trigger] id_at(levels, i, k),
                levels[i].price,
            ),
        forall|i: int, k: int|
            #![trigger id_at(side_with_order(levels, side, o), i, k)]
            valid_pos(side_with_order(levels, side, o), i, k) ==> {
                let nl = side_with_order(levels, side, o);
                ||| (nl[i].orders[k] == o && nl[i].price == o.price->0)
                ||| (side_has(levels, id_at(nl, i, k), nl[i].price) && side_holds(levels, nl[i].orders[k], nl[i].price))
            },
{
    let p = o.price->0;
    let n = insert_pos(levels, side, p) as int;
    lemma_insert_pos(levels, side, p);
    let nl = side_with_order(levels, side, o);
    if n < levels.len() && levels[n].price == p {
        let q = levels[n].orders.push(o);
        lemma_sum_push(levels[n].orders, o);
        assert(nl == levels.update(n, LevelView { price: p, orders: q }));
        assert(side_sorted(nl, side)) by {
            assert forall|i: int, j: int| 0 <= i < j < nl.len() implies better(side, #[trigger] nl[i].price, #[trigger] nl[j].price) by {
                assert(nl[i].price == levels[i].price && nl[j].price == levels[j].price);
            }
        }
        assert forall|i: int| 0 <= i < nl.len() implies (#[trigger] nl[i]).orders.len() > 0 && sum_remaining(nl[i].orders)
            <= u64::MAX by {
            assert(levels[i].orders.len() > 0);
        }
        assert forall|i: int, k: int| valid_pos(nl, i, k) implies order_fits(#[trigger] nl[i].orders[k], side, nl[i].price) by {
            if i == n && k == levels[n].orders.len() {
                assert(nl[i].orders[k] == o);
            } else {
                assert(nl[i].orders[k] == levels[i].orders[k]);
            }
        }
        assert forall|i1: int, k1: int, i2: int, k2: int|
            valid_pos(nl, i1, k1) && valid_pos(nl, i2, k2) && (i1 != i2 || k1 != k2) implies #[trigger] id_at(nl, i1, k1)
            != #[trigger] id_at(nl, i2, k2) by {
            let last = levels[n].orders.len() as int;
            if !(i1 == n && k1 == last) && !(i2 == n && k2 == last) {
                assert(id_at(nl, i1, k1) == id_at(levels, i1, k1));
                assert(id_at(nl, i2, k2) == id_at(levels, i2, k2));
            } else if i1 == n && k1 == last && !(i2 == n && k2 == last) {
                assert(id_at(nl, i2, k2) == id_at(levels, i2, k2));
            } else if i2 == n && k2 == last && !(i1 == n && k1 == last) {
                assert(id_at(nl, i1, k1) == id_at(levels, i1, k1));
            }
        }
        assert(id_at(nl, n, levels[n].orders.len() as int) == o.id);
        assert forall|i: int, k: int| valid_pos(levels, i, k) implies side_has(nl, #[trigger] id_at(levels, i, k), levels[i].price) by {
            assert(id_at(nl, i, k) == id_at(levels, i, k));
        }
        assert forall|i: int, k: int| #![trigger id_at(nl, i, k)] valid_pos(nl, i, k) implies {
            ||| (nl[i].orders[k] == o && nl[i].price == p)
            ||| (side_has(levels, id_at(nl, i, k), nl[i].price) && side_holds(levels, nl[i].orders[k], nl[i].price))
        } by {
            if !(i == n && k == levels[n].orders.len()) {
                assert(nl[i].orders[k] == levels[i].orders[k]);
                assert(id_at(nl, i, k) == id_at(levels, i, k));
            }
        }
    } else {
        let nlv = LevelView { price: p, orders: seq![o] };
        assert(nl == levels.insert(n, nlv));
        assert(sum_remaining(seq![o]) == o.remaining()) by {
            assert(seq![o].drop_first() =~= Seq::<Order>::empty());
            assert(seq![o][0] == o);
            assert(sum_remaining(Seq::<Order>::empty()) == 0);
        }
        assert(side_sorted(nl, side)) by {
            assert forall|i: int, j: int| 0 <= i < j < nl.len() implies better(side, #[trigger] nl[i].price, #[trigger] nl[j].price) by {
                if j < n {
                    assert(nl[i] == levels[i] && nl[j] == levels[j]);
                } else if j == n {
                    assert(nl[i] == levels[i]);
                } else if i == n {
                    assert(nl[j] == levels[j - 1]);
                    assert(!better(side, levels[j - 1].price, p));
                    if j - 1 == n {
                        assert(levels[n].price != p);
                    } else {
                        assert(levels[j - 1].price != p);
                    }
                } else if i < n {
                    assert(nl[i] == levels[i] && nl[j] == levels[j - 1]);
                } else {
                    assert(nl[i] == levels[i - 1] && nl[j] == levels[j - 1]);
                }
            }
        }
        assert forall|i: int| 0 <= i < nl.len() implies (#[trigger] nl[i]).orders.len() > 0 && sum_remaining(nl[i].orders)
            <= u64::MAX by {
            if i < n {
                assert(nl[i] == levels[i]);
            } else if i > n {
                assert(nl[i] == levels[i - 1]);
            }
        }
        assert forall|i: int, k: int| valid_pos(nl, i, k) implies order_fits(#[trigger] nl[i].orders[k], side, nl[i].price) by {
            if i < n {
                assert(nl[i] == levels[i]);
            } else if i > n {
                assert(nl[i] == levels[i - 1]);
                assert(valid_pos(levels, i - 1, k));
            }
        }
        assert forall|i1: int, k1: int, i2: int, k2: int|
            valid_pos(nl, i1, k1) && valid_pos(nl, i2, k2) && (i1 != i2 || k1 != k2) implies #[trigger] id_at(nl, i1, k1)
            != #[trigger] id_at(nl, i2, k2) by {
            let j1 = if i1 < n { i1 } else { i1 - 1 };
            let j2 = if i2 < n { i2 } else { i2 - 1 };
            if i1 != n {
                assert(id_at(nl, i1, k1) == id_at(levels, j1, k1));
            }
            if i2 != n {
                assert(id_at(nl, i2, k2) == id_at(levels, j2, k2));
            }
        }
        assert(id_at(nl, n, 0) == o.id);
        assert forall|i: int, k: int| valid_pos(levels, i, k) implies side_has(nl, #[trigger] id_at(levels, i, k), levels[i].price) by {
            let j = if i < n { i } else { i + 1 };
            assert(id_at(nl, j, k) == id_at(levels, i, k));
        }
        assert forall|i: int, k: int| #![trigger id_at(nl, i, k)] valid_pos(nl, i, k) implies {
            ||| (nl[i].orders[k] == o && nl[i].price == p)
            ||| (side_has(levels, id_at(nl, i, k), nl[i].price) && side_holds(levels, nl[i].orders[k], nl[i].price))
        } by {
            if i < n {
                assert(nl[i] == levels[i]);
                assert(id_at(nl, i, k) == id_at(levels, i, k));
            } else if i > n {
                assert(nl[i] == levels[i - 1]);
                assert(valid_pos(levels, i - 1, k));
                assert(id_at(nl, i, k) == id_at(levels, i - 1, k));
            } else {
                assert(nl[i].orders[k] == o);
            }
        }
    }
}

/// The side after the order at position `k` of level `i` left it; the level
/// goes too if it is left without orders.
pub open spec fn side_without_at(levels: Seq<LevelView>, i: int, k: int) -> Seq<LevelView> {
    let q = levels[i].orders.remove(k);
    if q.len() == 0 {
        levels.remove(i)
    } else {
        levels.update(i, LevelView { price: levels[i].price, orders: q })
    }
}

/// Removing an order keeps a side well formed; every order left keeps its
/// price, and every other order stays.
pub proof fn lemma_side_without_at(levels: Seq<LevelView>, side: Side, i: int, k: int)
    requires
        side_wf(levels, side),
        valid_pos(levels, i, k),
    ensures
        side_wf(side_without_at(levels, i, k), side),
        forall|i2: int, k2: int|
            valid_pos(levels, i2, k2) && (i2 != i || k2 != k) ==> side_has(
                side_without_at(levels, i, k),
                #[trigger] id_at(levels, i2, k2),
                levels[i2].price,
            ),
        forall|i2: int, k2: int|
            #![trigger id_at(side_without_at(levels, i, k), i2, k2)]
            valid_pos(side_without_at(levels, i, k), i2, k2) ==> {
                let nl = side_without_at(levels, i, k);
                &&& side_has(levels, id_at(nl, i2, k2), nl[i2].price)
                &&& side_holds(levels, nl[i2].orders[k2], nl[i2].price)
                &&& id_at(nl, i2, k2) != id_at(levels, i, k)
            },
{
    let q = levels[i].orders.remove(k);
    let nl = side_without_at(levels, i, k);
    lemma_sum_remove(levels[i].orders, k);
    // position maps: old (i2, k2) -> new
    if q.len() == 0 {
        assert(nl == levels.remove(i));
        assert(side_sorted(nl, side)) by {
            assert forall|a: int, b: int| 0 <= a < b < nl.len() implies better(side, #[trigger] nl[a].price, #[trigger] nl[b].price) by {
                let a0 = if a < i { a } else { a + 1 };
                let b0 = if b < i { b } else { b + 1 };
                assert(nl[a] == levels[a0] && nl[b] == levels[b0]);
            }
        }
        assert forall|a: int| 0 <= a < nl.len() implies (#[trigger] nl[a]).orders.len() > 0 && sum_remaining(nl[a].orders)
            <= u64::MAX by {
            let a0 = if a < i { a } else { a + 1 };
            assert(nl[a] == levels[a0]);
        }
        assert forall|a: int, b: int| valid_pos(nl, a, b) implies order_fits(#[trigger] nl[a].orders[b], side, nl[a].price) by {
            let a0 = if a < i { a } else { a + 1 };
            assert(nl[a] == levels[a0]);
            assert(valid_pos(levels, a0, b));
        }
        assert forall|i1: int, k1: int, i2: int, k2: int|
            valid_pos(nl, i1, k1) && valid_pos(nl, i2, k2) && (i1 != i2 || k1 != k2) implies #[trigger] id_at(nl, i1, k1)
            != #[trigger] id_at(nl, i2, k2) by {
            let a1 = if i1 < i { i1 } else { i1 + 1 };
            let a2 = if i2 < i { i2 } else { i2 + 1 };
            assert(id_at(nl, i1, k1) == id_at(levels, a1, k1));
            assert(id_at(nl, i2, k2) == id_at(levels, a2, k2));
        }
        assert forall|i2: int, k2: int| valid_pos(levels, i2, k2) && (i2 != i || k2 != k) implies side_has(
            nl,
            #[trigger] id_at(levels, i2, k2),
            levels[i2].price,
        ) by {
            assert(i2 != i);
            let n2 = if i2 < i { i2 } else { i2 - 1 };
            assert(id_at(nl, n2, k2) == id_at(levels, i2, k2));
        }
        assert forall|i2: int, k2: int| #![trigger id_at(nl, i2, k2)] valid_pos(nl, i2, k2) implies {
            &&& side_has(levels, id_at(nl, i2, k2), nl[i2].price)
            &&& side_holds(levels, nl[i2].orders[k2], nl[i2].price)
            &&& id_at(nl, i2, k2) != id_at(levels, i, k)
        } by {
            let a = if i2 < i { i2 } else { i2 + 1 };
            assert(nl[i2] == levels[a]);
            assert(valid_pos(levels, a, k2));
            assert(id_at(nl, i2, k2) == id_at(levels, a, k2));
        }
    } else {
        assert(nl == levels.update(i, LevelView { price: levels[i].price, orders: q }));
        assert(side_sorted(nl, side)) by {
            assert forall|a: int, b: int| 0 <= a < b < nl.len() implies better(side, #[trigger] nl[a].price, #[trigger] nl[b].price) by {
                assert(nl[a].price == levels[a].price && nl[b].price == levels[b].price);
            }
        }
        assert forall|a: int| 0 <= a < nl.len() implies (#[trigger] nl[a]).orders.len() > 0 && sum_remaining(nl[a].orders)
            <= u64::MAX by {
            assert(levels[a].orders.len() > 0);
        }
        assert forall|a: int, b: int| valid_pos(nl, a, b) implies order_fits(#[trigger] nl[a].orders[b], side, nl[a].price) by {
            if a == i {
                let b0 = if b < k { b } else { b + 1 };
                assert(nl[a].orders[b] == levels[a].orders[b0]);
                assert(valid_pos(levels, a, b0));
            } else {
                assert(nl[a] == levels[a]);
            }
        }
        assert forall|i1: int, k1: int, i2: int, k2: int|
            valid_pos(nl, i1, k1) && valid_pos(nl, i2, k2) && (i1 != i2 || k1 != k2) implies #[trigger] id_at(nl, i1, k1)
            != #[trigger] id_at(nl, i2, k2) by {
            let b1 = if i1 == i && k1 >= k { k1 + 1 } else { k1 };
            let b2 = if i2 == i && k2 >= k { k2 + 1 } else { k2 };
            assert(id_at(nl, i1, k1) == id_at(levels, i1, b1));
            assert(id_at(nl, i2, k2) == id_at(levels, i2, b2));
        }
        assert forall|i2: int, k2: int| valid_pos(levels, i2, k2) && (i2 != i || k2 != k) implies side_has(
            nl,
            #[trigger] id_at(levels, i2, k2),
            levels[i2].price,
        ) by {
            let n2 = if i2 == i && k2 > k { k2 - 1 } else { k2 };
            assert(id_at(nl, i2, n2) == id_at(levels, i2, k2));
        }
        assert forall|i2: int, k2: int| #![trigger id_at(nl, i2, k2)] valid_pos(nl, i2, k2) implies {
            &&& side_has(levels, id_at(nl, i2, k2), nl[i2].price)
            &&& side_holds(levels, nl[i2].orders[k2], nl[i2].price)
            &&& id_at(nl, i2, k2) != id_at(levels, i, k)
        } by {
            let b = if i2 == i && k2 >= k { k2 + 1 } else { k2 };
            assert(nl[i2].orders[k2] == levels[i2].orders[b]);
            assert(valid_pos(levels, i2, b));
            assert(id_at(nl, i2, k2) == id_at(levels, i2, b));
        }
    }
}

/// In a well formed side, an order with id `id` resting at `price` sits in
/// the level `insert_pos` finds for that price, at the position `find_id`
/// finds for that id.
pub proof fn lemma_side_locate(levels: Seq<LevelView>, side: Side, id: u128, price: u64)
    requires
        side_wf(levels, side),
        side_has(levels, id, price),
    ensures
        ({
            let i = insert_pos(levels, side, price) as int;
            let k = find_id(levels[i].orders, id) as int;
            &&& valid_pos(levels, i, k)
            &&& levels[i].price == price
            &&& id_at(levels, i, k) == id
        }),
{
    let (i0, k0) = choose|i0: int, k0: int|
        valid_pos(levels, i0, k0) && levels[i0].price == price && #[trigger] id_at(levels, i0, k0) == id;
    lemma_insert_pos(levels, side, price);
    let i = insert_pos(levels, side, price) as int;
    if i0 < i {
        assert(better(side, levels[i0].price, price));
    }
    if i0 > i {
        assert(levels[i0].price != price);
    }
    assert(i0 == i);
    lemma_find_id(levels[i].orders, id);
    let k = find_id(levels[i].orders, id) as int;
    if k < k0 {
        assert(id_at(levels, i, k) != id_at(levels, i, k0));
    }
    if k > k0 {
        assert(levels[i].orders[k0].id != id);
    }
}

/// Removing a resting order keeps the book well formed.
pub proof fn lemma_book_without(b: BookView, id: u128)
    requires
        b.wf(),
        b.locations.contains_key(id),
    ensures
        b.without(id).wf(),
        b.without(id).symbol == b.symbol,
        b.without(id).locations == b.locations.remove(id),
        forall|s: Side, i: int, k: int|
            valid_pos(b.without(id).side(s), i, k) ==> side_holds(
                b.side(s),
                #[trigger] b.without(id).side(s)[i].orders[k],
                b.without(id).side(s)[i].price,
            ) && b.without(id).side(s)[i].orders[k].id != id,
        forall|s: Side|
            b.without(id).side(s).len() > 0 ==> b.side(s).len() > 0 && !better(
                s,
                #[trigger] b.without(id).side(s)[0].price,
                b.side(s)[0].price,
            ),
{
    let (s0, p) = b.locations[id];
    let levels = b.side(s0);
    lemma_side_locate(levels, s0, id, p);
    let i = insert_pos(levels, s0, p) as int;
    let k = find_id(levels[i].orders, id) as int;
    lemma_side_without_at(levels, s0, i, k);
    let nl = side_without_at(levels, i, k);
    let nb = b.without(id);
    assert(nb.side(s0) == nl);
    assert(nb.side(opposite(s0)) == b.side(opposite(s0)));
    assert(side_wf(nb.bids, Side::Buy) && side_wf(nb.asks, Side::Sell));
    assert forall|s: Side, i2: int, k2: int| valid_pos(nb.side(s), i2, k2) implies side_holds(
        b.side(s),
        #[trigger] nb.side(s)[i2].orders[k2],
        nb.side(s)[i2].price,
    ) && nb.side(s)[i2].orders[k2].id != id by {
        if s == s0 {
            assert(id_at(nl, i2, k2) == nb.side(s)[i2].orders[k2].id);
        } else {
            assert(nb.side(s) == b.side(s));
            assert(valid_pos(b.side(s), i2, k2));
            assert(b.locations.contains_key(id_at(b.side(s), i2, k2)));
        }
    }
    assert forall|s: Side| nb.side(s).len() > 0 implies b.side(s).len() > 0 && !better(
        s,
        #[trigger] nb.side(s)[0].price,
        b.side(s)[0].price,
    ) by {
        if s == s0 {
            let q = levels[i].orders.remove(k);
            if q.len() == 0 && i == 0 {
                assert(nl[0] == levels[1]);
                assert(better(s, levels[0].price, levels[1].price));
            } else if q.len() == 0 {
                assert(nl[0] == levels[0]);
            } else {
                assert(nl[0].price == levels[0].price);
            }
        } else {
            assert(nb.side(s) == b.side(s));
        }
    }
    assert forall|s: Side, i2: int, k2: int| valid_pos(nb.side(s), i2, k2) implies nb.locations.contains_key(
        #[trigger] id_at(nb.side(s), i2, k2),
    ) && nb.locations[id_at(nb.side(s), i2, k2)] == (s, nb.side(s)[i2].price) by {
        let x = id_at(nb.side(s), i2, k2);
        if s == s0 {
            assert(id_at(nl, i2, k2) == x);
            assert(side_has(levels, x, nl[i2].price));
            let (a, c) = choose|a: int, c: int|
                valid_pos(levels, a, c) && levels[a].price == nl[i2].price && #[trigger] id_at(levels, a, c) == x;
            assert(b.locations.contains_key(id_at(b.side(s0), a, c)));
        } else {
            assert(nb.side(s) == b.side(s));
            assert(b.locations.contains_key(id_at(b.side(s), i2, k2)));
            assert(x != id) by {
                if x == id {
                    assert(b.locations[id].0 == s);
                }
            }
        }
    }
    assert forall|x: u128| #[trigger] nb.locations.contains_key(x) implies side_has(
        nb.side(nb.locations[x].0),
        x,
        nb.locations[x].1,
    ) by {
        assert(x != id);
        assert(b.locations.contains_key(x));
        let (s, pr) = b.locations[x];
        assert(side_has(b.side(s), x, pr));
        if s == s0 {
            let (a, c) = choose|a: int, c: int|
                valid_pos(levels, a, c) && levels[a].price == pr && #[trigger] id_at(levels, a, c) == x;
            assert(a != i || c != k);
            assert(side_has(nl, id_at(levels, a, c), levels[a].price));
        } else {
            assert(nb.side(s) == b.side(s));
        }
    }
}

/// Remaining quantity of the levels, best first, that an incoming order on
/// `taker` side with limit `limit` may trade with.
pub open spec fn crossing_total(levels: Seq<LevelView>, taker: Side, limit: Option<u64>) -> nat
    decreases levels.len(),
{
    if levels.len() == 0 || !crosses(taker, limit, levels[0].price) {
        0
    } else {
        sum_remaining(levels[0].orders) + crossing_total(levels.drop_first(), taker, limit)
    }
}

/// Matches an incoming order on `taker` side, with limit `limit` (none for a
/// market order) and `want` units to fill, against the levels of the other
/// side in price-time priority: level by level, best price first, while the
/// price crosses, each level's queue oldest first. Yields the levels left and
/// the fills, in execution order.
pub open spec fn match_levels(levels: Seq<LevelView>, taker: Side, limit: Option<u64>, want: nat, now: i128) -> (
    Seq<LevelView>,
    Seq<Fill>,
)
    decreases levels.len(),
{
    if want == 0 || levels.len() == 0 || !crosses(taker, limit, levels[0].price) {
        (levels, Seq::empty())
    } else {
        let m = match_queue(levels[0].orders, levels[0].price, want, now);
        if m.0.len() == 0 {
            let rest = match_levels(levels.drop_first(), taker, limit, (want - fills_quantity(m.1)) as nat, now);
            (rest.0, m.1 + rest.1)
        } else {
            (levels.update(0, LevelView { price: levels[0].price, orders: m.0 }), m.1)
        }
    }
}

/// A well formed side stays well formed without its best level.
pub proof fn lemma_side_wf_drop_first(levels: Seq<LevelView>, side: Side)
    requires
        side_wf(levels, side),
        levels.len() > 0,
    ensures
        side_wf(levels.drop_first(), side),
{
    let r = levels.drop_first();
    assert forall|i: int| 0 <= i < r.len() implies r[i] == levels[i + 1] by {}
    assert(side_sorted(r, side)) by {
        assert forall|i: int, j: int| 0 <= i < j < r.len() implies better(side, #[trigger] r[i].price, #[trigger] r[j].price) by {
            assert(r[i] == levels[i + 1] && r[j] == levels[j + 1]);
        }
    }
    assert forall|i: int| 0 <= i < r.len() implies (#[trigger] r[i]).orders.len() > 0 && sum_remaining(r[i].orders)
        <= u64::MAX by {
        assert(r[i] == levels[i + 1]);
    }
    assert forall|i: int, k: int| valid_pos(r, i, k) implies order_fits(#[trigger] r[i].orders[k], side, r[i].price) by {
        assert(r[i] == levels[i + 1]);
        assert(valid_pos(levels, i + 1, k));
    }
    assert forall|i1: int, k1: int, i2: int, k2: int|
        valid_pos(r, i1, k1) && valid_pos(r, i2, k2) && (i1 != i2 || k1 != k2) implies #[trigger] id_at(r, i1, k1)
        != #[trigger] id_at(r, i2, k2) by {
        assert(id_at(r, i1, k1) == id_at(levels, i1 + 1, k1));
        assert(id_at(r, i2, k2) == id_at(levels, i2 + 1, k2));
    }
}

/// How much matching fills: as much as is wanted or as crosses, whichever is
/// less. If it fills less than wanted, nothing left crosses; and what is left
/// has no better price than what was there.
pub proof fn lemma_match_levels_quantity(
    levels: Seq<LevelView>,
    taker: Side,
    limit: Option<u64>,
    want: nat,
    now: i128,
)
    requires
        side_sorted(levels, opposite(taker)),
    ensures
        ({
            let (rest, fills) = match_levels(levels, taker, limit, want, now);
            let ct = crossing_total(levels, taker, limit);
            &&& fills_quantity(fills) == if want <= ct { want } else { ct }
            &&& fills_quantity(fills) < want ==> rest.len() == 0 || !crosses(taker, limit, rest[0].price)
            &&& rest.len() > 0 ==> levels.len() > 0 && !better(opposite(taker), rest[0].price, levels[0].price)
            &&& rest.len() <= levels.len()
        }),
    decreases levels.len(),
{
    let (rest, fills) = match_levels(levels, taker, limit, want, now);
    if want == 0 || levels.len() == 0 || !crosses(taker, limit, levels[0].price) {
    } else {
        let m = match_queue(levels[0].orders, levels[0].price, want, now);
        lemma_match_queue(levels[0].orders, levels[0].price, want, now);
        if m.0.len() == 0 {
            let l1 = levels.drop_first();
            assert(side_sorted(l1, opposite(taker))) by {
                assert forall|i: int, j: int| 0 <= i < j < l1.len() implies better(opposite(taker), #[trigger] l1[i].price, #[trigger] l1[j].price) by {
                    assert(l1[i] == levels[i + 1] && l1[j] == levels[j + 1]);
                }
            }
            let w1 = (want - fills_quantity(m.1)) as nat;
            lemma_match_levels_quantity(l1, taker, limit, w1, now);
            lemma_sum_concat(m.1, match_levels(l1, taker, limit, w1, now).1);
            if rest.len() > 0 {
                assert(l1[0] == levels[1]);
                assert(better(opposite(taker), levels[0].price, levels[1].price));
            }
        } else {
        }
    }
}

/// `o` is an order of `levels` resting at `price`, with `fills` applied.
pub open spec fn came_from(levels: Seq<LevelView>, o: Order, price: u64, fills: Seq<Fill>, now: i128) -> bool {
    exists|i: int, k: int|
        valid_pos(levels, i, k) && levels[i].price == price && o == apply_fills_to(
            #[trigger] levels[i].orders[k],
            fills,
            now,
        )
}

/// Fill `f` executed against an order of `levels` at that order's price,
/// which crosses the incoming order's limit, for no more than the order still
/// wanted; it completely filled the order exactly when it took all that
/// remained, and otherwise took a positive quantity.
pub open spec fn fill_from(levels: Seq<LevelView>, f: Fill, taker: Side, limit: Option<u64>) -> bool {
    exists|i: int, k: int|
        valid_pos(levels, i, k) && #[trigger] id_at(levels, i, k) == f.maker_id && levels[i].price == f.price && {
            let o = levels[i].orders[k];
            &&& f.quantity <= o.remaining()
            &&& (f.maker_done ==> f.quantity == o.remaining())
            &&& (!f.maker_done ==> 0 < f.quantity < o.remaining())
            &&& crosses(taker, limit, f.price)
        }
}

/// What matching does to the resting side, order by order: the side stays
/// well formed; every order left was there before at the same price, with its
/// fills applied, and was not completely filled; every order that was there
/// either was completely filled or is still there at the same price.
#[verifier::spinoff_prover]
#[verifier::rlimit(100)]
pub proof fn lemma_match_levels_shape(
    levels: Seq<LevelView>,
    taker: Side,
    limit: Option<u64>,
    want: nat,
    now: i128,
)
    requires
        side_wf(levels, opposite(taker)),
    ensures
        ({
            let (rest, fills) = match_levels(levels, taker, limit, want, now);
            &&& side_wf(rest, opposite(taker))
            &&& forall|i: int, k: int|
                valid_pos(rest, i, k) ==> came_from(levels, #[trigger] rest[i].orders[k], rest[i].price, fills, now)
                    && !is_done_maker(fills, rest[i].orders[k].id)
            &&& forall|i: int, k: int|
                valid_pos(levels, i, k) ==> is_done_maker(fills, #[trigger] id_at(levels, i, k)) || side_has(
                    rest,
                    id_at(levels, i, k),
                    levels[i].price,
                )
        }),
    decreases levels.len(),
{
    let s = opposite(taker);
    let (rest, fills) = match_levels(levels, taker, limit, want, now);
    if want == 0 || levels.len() == 0 || !crosses(taker, limit, levels[0].price) {
        assert forall|i: int, k: int| valid_pos(rest, i, k) implies came_from(
            levels,
            #[trigger] rest[i].orders[k],
            rest[i].price,
            fills,
            now,
        ) && !is_done_maker(fills, rest[i].orders[k].id) by {
            assert(apply_fills_to(levels[i].orders[k], fills, now) == levels[i].orders[k]);
        }
        assert forall|i: int, k: int| valid_pos(levels, i, k) implies is_done_maker(
            fills,
            #[trigger] id_at(levels, i, k),
        ) || side_has(rest, id_at(levels, i, k), levels[i].price) by {}
    } else {
        let q = levels[0].orders;
        let p0 = levels[0].price;
        assert(queue_unique(q)) by {
            assert forall|a: int, b: int| 0 <= a < b < q.len() implies q[a].id != q[b].id by {
                assert(id_at(levels, 0, a) != id_at(levels, 0, b));
            }
        }
        let m = match_queue(q, p0, want, now);
        lemma_match_queue(q, p0, want, now);
        lemma_match_queue_shape(q, p0, want, now);
        let d = q.len() - m.0.len();
        // fills of level 0 are against level-0 orders only
        assert forall|i: int, k: int| 1 <= i < levels.len() && 0 <= k < levels[i].orders.len() implies !is_maker(
            m.1,
            #[trigger] levels[i].orders[k].id,
        ) by {
            if is_maker(m.1, levels[i].orders[k].id) {
                let j = choose|j: int| 0 <= j < m.1.len() && m.1[j].maker_id == levels[i].orders[k].id;
                assert(m.1[j].maker_id == q[j].id);
                assert(id_at(levels, 0, j) != id_at(levels, i, k));
            }
        }
        if m.0.len() == 0 {
            let l1 = levels.drop_first();
            let w1 = (want - fills_quantity(m.1)) as nat;
            lemma_side_wf_drop_first(levels, s);
            lemma_match_levels_shape(l1, taker, limit, w1, now);
            let r1 = match_levels(l1, taker, limit, w1, now);
            assert(rest == r1.0);
            assert(fills == m.1 + r1.1);
            assert forall|i: int, k: int| valid_pos(rest, i, k) implies came_from(
                levels,
                #[trigger] rest[i].orders[k],
                rest[i].price,
                fills,
                now,
            ) && !is_done_maker(fills, rest[i].orders[k].id) by {
                assert(came_from(l1, rest[i].orders[k], rest[i].price, r1.1, now));
                let (i0, k0) = choose|i0: int, k0: int|
                    valid_pos(l1, i0, k0) && l1[i0].price == rest[i].price && rest[i].orders[k] == apply_fills_to(
                        #[trigger] l1[i0].orders[k0],
                        r1.1,
                        now,
                    );
                let o = levels[i0 + 1].orders[k0];
                assert(l1[i0] == levels[i0 + 1]);
                assert(!is_maker(m.1, o.id));
                lemma_apply_no_fill(o, m.1, now);
                lemma_apply_concat(o, m.1, r1.1, now);
                assert(rest[i].orders[k] == apply_fills_to(levels[i0 + 1].orders[k0], fills, now));
                lemma_apply_concat(o, r1.1, Seq::<Fill>::empty(), now);
                assert(rest[i].orders[k].id == o.id);
                if is_done_maker(fills, o.id) {
                    let j = choose|j: int| 0 <= j < fills.len() && fills[j].maker_id == o.id && fills[j].maker_done;
                    if j < m.1.len() {
                        assert(fills[j] == m.1[j]);
                    } else {
                        assert(fills[j] == r1.1[j - m.1.len()]);
                    }
                }
            }
            assert forall|i: int, k: int| valid_pos(levels, i, k) implies is_done_maker(
                fills,
                #[trigger] id_at(levels, i, k),
            ) || side_has(rest, id_at(levels, i, k), levels[i].price) by {
                if i == 0 {
                    assert(q[k].id == id_at(levels, 0, k));
                    assert(is_done_maker(m.1, q[k].id));
                    let j = choose|j: int| 0 <= j < m.1.len() && m.1[j].maker_id == q[k].id && m.1[j].maker_done;
                    assert(fills[j] == m.1[j]);
                } else {
                    assert(id_at(l1, i - 1, k) == id_at(levels, i, k));
                    assert(valid_pos(l1, i - 1, k));
                    if is_done_maker(r1.1, id_at(l1, i - 1, k)) {
                        let j = choose|j: int| 0 <= j < r1.1.len() && r1.1[j].maker_id == id_at(l1, i - 1, k) && r1.1[j].maker_done;
                        assert(fills[j + m.1.len()] == r1.1[j]);
                    }
                }
            }
        } else {
            let q2 = m.0;
            let lv0 = LevelView { price: p0, orders: q2 };
            assert(rest == levels.update(0, lv0));
            assert(fills == m.1);
            // q2[k] has the id of q[k + d]
            assert forall|k: int| 0 <= k < q2.len() implies (#[trigger] q2[k]).id == q[k + d].id && order_fits(q2[k], s, p0) by {
                assert(valid_pos(levels, 0, k + d));
                if q2[k] != q[k + d] {
                    assert(k == 0);
                }
            }
            assert(side_sorted(rest, s)) by {
                assert forall|a: int, b: int| 0 <= a < b < rest.len() implies better(s, #[trigger] rest[a].price, #[trigger] rest[b].price) by {
                    assert(rest[a].price == levels[a].price && rest[b].price == levels[b].price);
                }
            }
            assert forall|a: int| 0 <= a < rest.len() implies (#[trigger] rest[a]).orders.len() > 0 && sum_remaining(rest[a].orders)
                <= u64::MAX by {
                assert(levels[a].orders.len() > 0);
            }
            assert forall|a: int, b: int| valid_pos(rest, a, b) implies order_fits(#[trigger] rest[a].orders[b], s, rest[a].price) by {
                if a == 0 {
                    assert(rest[0].orders[b] == q2[b]);
                } else {
                    assert(rest[a] == levels[a]);
                }
            }
            assert forall|i1: int, k1: int, i2: int, k2: int|
                valid_pos(rest, i1, k1) && valid_pos(rest, i2, k2) && (i1 != i2 || k1 != k2) implies #[trigger] id_at(
                rest,
                i1,
                k1,
            ) != #[trigger] id_at(rest, i2, k2) by {
                let b1 = if i1 == 0 { k1 + d } else { k1 };
                let b2 = if i2 == 0 { k2 + d } else { k2 };
                if i1 == 0 {
                    assert(id_at(rest, i1, k1) == q2[k1].id);
                } else {
                    assert(rest[i1] == levels[i1]);
                }
                if i2 == 0 {
                    assert(id_at(rest, i2, k2) == q2[k2].id);
                } else {
                    assert(rest[i2] == levels[i2]);
                }
                assert(id_at(rest, i1, k1) == id_at(levels, i1, b1));
                assert(id_at(rest, i2, k2) == id_at(levels, i2, b2));
            }
            assert forall|i: int, k: int| valid_pos(rest, i, k) implies came_from(
                levels,
                #[trigger] rest[i].orders[k],
                rest[i].price,
                fills,
                now,
            ) && !is_done_maker(fills, rest[i].orders[k].id) by {
                if i == 0 {
                    assert(rest[0].orders[k] == q2[k]);
                    assert(q2[k] == apply_fills_to(q[k + d], m.1, now));
                    assert(levels[0].orders[k + d] == q[k + d]);
                } else {
                    let o = levels[i].orders[k];
                    assert(rest[i] == levels[i]);
                    lemma_apply_no_fill(o, m.1, now);
                    assert(levels[i].orders[k] == o);
                    if is_done_maker(fills, o.id) {
                        let j = choose|j: int| 0 <= j < fills.len() && fills[j].maker_id == o.id && fills[j].maker_done;
                        assert(is_maker(m.1, o.id));
                    }
                }
            }
            assert forall|i: int, k: int| valid_pos(levels, i, k) implies is_done_maker(
                fills,
                #[trigger] id_at(levels, i, k),
            ) || side_has(rest, id_at(levels, i, k), levels[i].price) by {
                if i == 0 {
                    assert(id_at(levels, 0, k) == q[k].id);
                    if k >= d {
                        assert(q2[k - d].id == q[k].id);
                        assert(id_at(rest, 0, k - d) == q[k].id);
                    }
                } else {
                    assert(rest[i] == levels[i]);
                    assert(id_at(rest, i, k) == id_at(levels, i, k));
                }
            }
        }
    }
}

/// Each fill of a match executed against a distinct resting order, as
/// `fill_from` describes.
#[verifier::spinoff_prover]
#[verifier::rlimit(100)]
pub proof fn lemma_match_levels_fills(
    levels: Seq<LevelView>,
    taker: Side,
    limit: Option<u64>,
    want: nat,
    now: i128,
)
    requires
        side_wf(levels, opposite(taker)),
    ensures
        ({
            let fills = match_levels(levels, taker, limit, want, now).1;
            &&& makers_distinct(fills)
            &&& forall|j: int| 0 <= j < fills.len() ==> fill_from(levels, #[trigger] fills[j], taker, limit)
        }),
    decreases levels.len(),
{
    let s = opposite(taker);
    let (rest, fills) = match_levels(levels, taker, limit, want, now);
    if want == 0 || levels.len() == 0 || !crosses(taker, limit, levels[0].price) {
    } else {
        let q = levels[0].orders;
        let p0 = levels[0].price;
        assert(queue_unique(q)) by {
            assert forall|a: int, b: int| 0 <= a < b < q.len() implies q[a].id != q[b].id by {
                assert(id_at(levels, 0, a) != id_at(levels, 0, b));
            }
        }
        let m = match_queue(q, p0, want, now);
        lemma_match_queue_shape(q, p0, want, now);
        assert forall|j: int| 0 <= j < m.1.len() implies fill_from(levels, #[trigger] m.1[j], taker, limit) by {
            assert(id_at(levels, 0, j) == m.1[j].maker_id);
        }
        if m.0.len() == 0 {
            let l1 = levels.drop_first();
            let w1 = (want - fills_quantity(m.1)) as nat;
            lemma_side_wf_drop_first(levels, s);
            lemma_match_levels_fills(l1, taker, limit, w1, now);
            let f1 = match_levels(l1, taker, limit, w1, now).1;
            assert(fills == m.1 + f1);
            assert forall|j: int| 0 <= j < fills.len() implies fill_from(levels, #[trigger] fills[j], taker, limit) by {
                if j < m.1.len() {
                    assert(fills[j] == m.1[j]);
                } else {
                    let f = f1[j - m.1.len()];
                    assert(fills[j] == f);
                    assert(fill_from(l1, f, taker, limit));
                    let (i, k) = choose|i: int, k: int|
                        valid_pos(l1, i, k) && #[trigger] id_at(l1, i, k) == f.maker_id && l1[i].price == f.price && {
                            let o = l1[i].orders[k];
                            &&& f.quantity <= o.remaining()
                            &&& (f.maker_done ==> f.quantity == o.remaining())
                            &&& (!f.maker_done ==> 0 < f.quantity < o.remaining())
                            &&& crosses(taker, limit, f.price)
                        };
                    assert(l1[i] == levels[i + 1]);
                    assert(id_at(levels, i + 1, k) == f.maker_id);
                }
            }
            assert forall|a: int, b: int| 0 <= a < b < fills.len() implies fills[a].maker_id != fills[b].maker_id by {
                if b < m.1.len() {
                    assert(fills[a] == m.1[a] && fills[b] == m.1[b]);
                } else if a >= m.1.len() {
                    assert(fills[a] == f1[a - m.1.len()] && fills[b] == f1[b - m.1.len()]);
                } else {
                    let f = f1[b - m.1.len()];
                    assert(fills[a] == m.1[a] && fills[b] == f);
                    assert(fill_from(l1, f, taker, limit));
                    let (i, k) = choose|i: int, k: int|
                        valid_pos(l1, i, k) && #[trigger] id_at(l1, i, k) == f.maker_id && l1[i].price == f.price && {
                            let o = l1[i].orders[k];
                            &&& f.quantity <= o.remaining()
                            &&& (f.maker_done ==> f.quantity == o.remaining())
                            &&& (!f.maker_done ==> 0 < f.quantity < o.remaining())
                            &&& crosses(taker, limit, f.price)
                        };
                    assert(l1[i] == levels[i + 1]);
                    assert(id_at(levels, i + 1, k) == f.maker_id);
                    assert(id_at(levels, 0, a) == m.1[a].maker_id);
                }
            }
        } else {
            assert(fills == m.1);
        }
    }
}

/// Ids of the orders that some fill of `fills` completely filled.
pub open spec fn done_set(fills: Seq<Fill>) -> Set<u128> {
    Set::new(|id: u128| is_done_maker(fills, id))
}

/// Order `o` rests at `price` in `levels`.
pub open spec fn side_holds(levels: Seq<LevelView>, o: Order, price: u64) -> bool {
    exists|i: int, k: int| valid_pos(levels, i, k) && levels[i].price == price && #[trigger] levels[i].orders[k] == o
}

/// The fills of a match do not depend on the time it happens at.
pub proof fn lemma_match_levels_time(
    levels: Seq<LevelView>,
    taker: Side,
    limit: Option<u64>,
    want: nat,
    now1: i128,
    now2: i128,
)
    ensures
        match_levels(levels, taker, limit, want, now1).1 == match_levels(levels, taker, limit, want, now2).1,
    decreases levels.len(),
{
    if want > 0 && levels.len() > 0 && crosses(taker, limit, levels[0].price) {
        lemma_match_queue_time(levels[0].orders, levels[0].price, want, now1, now2);
        let m = match_queue(levels[0].orders, levels[0].price, want, now1);
        lemma_match_levels_time(levels.drop_first(), taker, limit, (want - fills_quantity(m.1)) as nat, now1, now2);
    }
}

/// After adding an order, the best level of its side has the order's price
/// or the price the best level had before.
pub proof fn lemma_side_with_order_best(levels: Seq<LevelView>, side: Side, o: Order)
    requires
        o.price is Some,
        side_sorted(levels, side),
    ensures
        side_with_order(levels, side, o).len() > 0,
        side_with_order(levels, side, o)[0].price == o.price->0 || (levels.len() > 0 && side_with_order(
            levels,
            side,
            o,
        )[0].price == levels[0].price),
{
    let p = o.price->0;
    let n = insert_pos(levels, side, p) as int;
    let nl = side_with_order(levels, side, o);
    lemma_insert_pos(levels, side, p);
    if n < levels.len() && levels[n].price == p {
        assert(nl[0].price == levels[0].price);
    } else {
        assert(nl == levels.insert(n, LevelView { price: p, orders: seq![o] }));
        if n == 0 {
            assert(nl[0].price == p);
        } else {
            assert(nl[0] == levels[0]);
        }
    }
}

/// A side's total is its best level's quantity plus the rest.
pub proof fn lemma_side_total_front(levels: Seq<LevelView>)
    requires
        levels.len() > 0,
    ensures
        side_total(levels) == sum_remaining(levels[0].orders) + side_total(levels.drop_first()),
    decreases levels.len(),
{
    if levels.len() == 1 {
        assert(levels.drop_first() =~= Seq::<LevelView>::empty());
        assert(levels.drop_last() =~= Seq::<LevelView>::empty());
    } else {
        lemma_side_total_front(levels.drop_last());
        assert(levels.drop_last().drop_first() =~= levels.drop_first().drop_last());
        assert(levels.drop_last()[0] == levels[0]);
        assert(levels.drop_first().last() == levels.last());
    }
}

/// A market order may trade with every resting order of the other side.
pub proof fn lemma_crossing_total_market(levels: Seq<LevelView>, taker: Side)
    ensures
        crossing_total(levels, taker, None) == side_total(levels),
    decreases levels.len(),
{
    if levels.len() > 0 {
        lemma_side_total_front(levels);
        lemma_crossing_total_market(levels.drop_first(), taker);
    }
}

/// Abstract view of an order book.
pub struct BookView {
    pub symbol: Seq<char>,
    /// Buy levels, highest price first
    pub bids: Seq<LevelView>,
    /// Sell levels, lowest price first
    pub asks: Seq<LevelView>,
    /// Where each resting order is: its side and price
    pub locations: Map<u128, (Side, u64)>,
}

impl BookView {
    pub open spec fn side(self, side: Side) -> Seq<LevelView> {
        match side {
            Side::Buy => self.bids,
            Side::Sell => self.asks,
        }
    }

    pub open spec fn with_side(self, side: Side, levels: Seq<LevelView>) -> BookView {
        match side {
            Side::Buy => BookView { bids: levels, ..self },
            Side::Sell => BookView { asks: levels, ..self },
        }
    }

    /// Both sides are well formed and the location index names exactly the
    /// resting orders, each with its side and price.
    pub open spec fn wf(self) -> bool {
        &&& side_wf(self.bids, Side::Buy)
        &&& side_wf(self.asks, Side::Sell)
        &&& forall|s: Side, i: int, k: int|
            valid_pos(self.side(s), i, k) ==> self.locations.contains_key(#[trigger] id_at(self.side(s), i, k))
                && self.locations[id_at(self.side(s), i, k)] == (s, self.side(s)[i].price)
        &&& forall|id: u128|
            #[trigger] self.locations.contains_key(id) ==> side_has(
                self.side(self.locations[id].0),
                id,
                self.locations[id].1,
            )
    }

    /// The resting order with id `id`, if there is one.
    pub open spec fn find(self, id: u128) -> Option<Order> {
        if self.locations.contains_key(id) {
            let (s, p) = self.locations[id];
            let levels = self.side(s);
            let i = insert_pos(levels, s, p) as int;
            Some(levels[i].orders[find_id(levels[i].orders, id) as int])
        } else {
            None
        }
    }

    /// The book after the resting order with id `id` (if any) left it; a level
    /// left without orders goes too.
    pub open spec fn without(self, id: u128) -> BookView {
        if self.locations.contains_key(id) {
            let (s, p) = self.locations[id];
            let levels = self.side(s);
            let i = insert_pos(levels, s, p) as int;
            BookView {
                locations: self.locations.remove(id),
                ..self.with_side(s, side_without_at(levels, i, find_id(levels[i].orders, id) as int))
            }
        } else {
            self
        }
    }

    /// The book after an incoming order on `taker` side, with limit `limit`
    /// and `want` units to fill, was matched against the other side at time
    /// `now`: that side as `match_levels` leaves it, and the completely filled
    /// orders no longer located.
    pub open spec fn after_match(self, taker: Side, limit: Option<u64>, want: nat, now: i128) -> BookView {
        let s = opposite(taker);
        let m = match_levels(self.side(s), taker, limit, want, now);
        BookView { locations: self.locations.remove_keys(done_set(m.1)), ..self.with_side(s, m.0) }
    }

    /// The fills that matching an incoming order would produce.
    pub open spec fn match_fills(self, taker: Side, limit: Option<u64>, want: nat, now: i128) -> Seq<Fill> {
        match_levels(self.side(opposite(taker)), taker, limit, want, now).1
    }

    /// The book after `o` was added behind the orders resting at its price.
    pub open spec fn with_order(self, o: Order) -> BookView {
        let p = o.price->0;
        BookView {
            locations: self.locations.insert(o.id, (o.side, p)),
            ..self.with_side(o.side, side_with_order(self.side(o.side), o.side, o))
        }
    }
}

/// Matching an incoming order keeps the book well formed.
pub proof fn lemma_book_after_match(b: BookView, taker: Side, limit: Option<u64>, want: nat, now: i128)
    requires
        b.wf(),
    ensures
        b.after_match(taker, limit, want, now).wf(),
        b.after_match(taker, limit, want, now).symbol == b.symbol,
{
    let s0 = opposite(taker);
    let levels = b.side(s0);
    let nb = b.after_match(taker, limit, want, now);
    let m = match_levels(levels, taker, limit, want, now);
    lemma_match_levels_shape(levels, taker, limit, want, now);
    lemma_match_levels_fills(levels, taker, limit, want, now);
    let rest = m.0;
    let fills = m.1;
    assert(nb.side(s0) == rest);
    assert(nb.side(opposite(s0)) == b.side(opposite(s0)));
    assert(opposite(s0) == taker);
    assert(side_wf(nb.bids, Side::Buy) && side_wf(nb.asks, Side::Sell));
    // every completely filled order rested on side s0
    assert forall|id: u128| #[trigger] is_done_maker(fills, id) implies b.locations.contains_key(id) && b.locations[id].0
        == s0 by {
        let j = choose|j: int| 0 <= j < fills.len() && fills[j].maker_id == id && fills[j].maker_done;
        assert(fill_from(levels, fills[j], taker, limit));
        let (i, k) = choose|i: int, k: int|
            valid_pos(levels, i, k) && #[trigger] id_at(levels, i, k) == fills[j].maker_id && levels[i].price
                == fills[j].price && {
                let o = levels[i].orders[k];
                &&& fills[j].quantity <= o.remaining()
                &&& (fills[j].maker_done ==> fills[j].quantity == o.remaining())
                &&& (!fills[j].maker_done ==> 0 < fills[j].quantity < o.remaining())
                &&& crosses(taker, limit, fills[j].price)
            };
        assert(b.locations.contains_key(id_at(b.side(s0), i, k)));
    }
    assert forall|s: Side, i: int, k: int| valid_pos(nb.side(s), i, k) implies nb.locations.contains_key(
        #[trigger] id_at(nb.side(s), i, k),
    ) && nb.locations[id_at(nb.side(s), i, k)] == (s, nb.side(s)[i].price) by {
        let x = id_at(nb.side(s), i, k);
        if s == s0 {
            assert(came_from(levels, rest[i].orders[k], rest[i].price, fills, now));
            let (i0, k0) = choose|i0: int, k0: int|
                valid_pos(levels, i0, k0) && levels[i0].price == rest[i].price && rest[i].orders[k] == apply_fills_to(
                    #[trigger] levels[i0].orders[k0],
                    fills,
                    now,
                );
            lemma_apply_concat(levels[i0].orders[k0], fills, Seq::<Fill>::empty(), now);
            assert(x == id_at(levels, i0, k0));
            assert(b.locations.contains_key(id_at(b.side(s0), i0, k0)));
            assert(!done_set(fills).contains(x));
        } else {
            assert(nb.side(s) == b.side(s));
            assert(b.locations.contains_key(id_at(b.side(s), i, k)));
            assert(!done_set(fills).contains(x)) by {
                if is_done_maker(fills, x) {
                    assert(b.locations[x].0 == s0);
                }
            }
        }
    }
    assert forall|x: u128| #[trigger] nb.locations.contains_key(x) implies side_has(
        nb.side(nb.locations[x].0),
        x,
        nb.locations[x].1,
    ) by {
        assert(b.locations.contains_key(x));
        assert(!is_done_maker(fills, x));
        let (s, pr) = b.locations[x];
        assert(side_has(b.side(s), x, pr));
        if s == s0 {
            let (a, c) = choose|a: int, c: int|
                valid_pos(levels, a, c) && levels[a].price == pr && #[trigger] id_at(levels, a, c) == x;
            assert(is_done_maker(fills, id_at(levels, a, c)) || side_has(rest, id_at(levels, a, c), levels[a].price));
        } else {
            assert(nb.side(s) == b.side(s));
        }
    }
}

/// Adding an order that is not in the book yet keeps the book well formed.
pub proof fn lemma_book_with_order(b: BookView, o: Order)
    requires
        b.wf(),
        o.price is Some,
        order_fits(o, o.side, o.price->0),
        !b.locations.contains_key(o.id),
        level_total_at(b.side(o.side), o.side, o.price->0) + o.remaining() <= u64::MAX,
    ensures
        b.with_order(o).wf(),
{
    let p = o.price->0;
    let s0 = o.side;
    let old_levels = b.side(s0);
    let nb = b.with_order(o);
    assert forall|i: int, k: int| valid_pos(old_levels, i, k) implies #[trigger] id_at(old_levels, i, k) != o.id by {
        assert(b.locations.contains_key(id_at(b.side(s0), i, k)));
    }
    lemma_side_with_order(old_levels, s0, o);
    let nl = side_with_order(old_levels, s0, o);
    assert(nb.side(s0) == nl);
    assert(nb.side(opposite(s0)) == b.side(opposite(s0)));
    assert(side_wf(nb.bids, Side::Buy) && side_wf(nb.asks, Side::Sell));
    assert forall|s: Side, i: int, k: int| valid_pos(nb.side(s), i, k) implies nb.locations.contains_key(
        #[trigger] id_at(nb.side(s), i, k),
    ) && nb.locations[id_at(nb.side(s), i, k)] == (s, nb.side(s)[i].price) by {
        let id = id_at(nb.side(s), i, k);
        if s == s0 {
            assert(id_at(nl, i, k) == id);
            if id == o.id && nl[i].price == p {
            } else {
                assert(side_has(old_levels, id, nl[i].price));
                let (i0, k0) = choose|i0: int, k0: int|
                    valid_pos(old_levels, i0, k0) && old_levels[i0].price == nl[i].price && #[trigger] id_at(
                        old_levels,
                        i0,
                        k0,
                    ) == id;
                assert(b.locations.contains_key(id_at(b.side(s0), i0, k0)));
                assert(id != o.id);
            }
        } else {
            assert(nb.side(s) == b.side(s));
            assert(b.locations.contains_key(id_at(b.side(s), i, k)));
            assert(id != o.id);
        }
    }
    assert forall|id: u128| #[trigger] nb.locations.contains_key(id) implies side_has(
        nb.side(nb.locations[id].0),
        id,
        nb.locations[id].1,
    ) by {
        if id == o.id {
        } else {
            assert(b.locations.contains_key(id));
            let (s, pr) = b.locations[id];
            assert(nb.locations[id] == (s, pr));
            assert(side_has(b.side(s), id, pr));
            if s == s0 {
                let (i0, k0) = choose|i0: int, k0: int|
                    valid_pos(old_levels, i0, k0) && old_levels[i0].price == pr && #[trigger] id_at(old_levels, i0, k0)
                        == id;
                assert(side_has(nl, id_at(old_levels, i0, k0), old_levels[i0].price));
            } else {
                assert(nb.side(s) == b.side(s));
            }
        }
    }
}

/// Order book for a single symbol.
///
/// Each side keeps its price levels in price priority (best first):
/// - Bids: highest price first
/// - Asks: lowest price first
///
/// A map from order id to (side, price) locates resting orders.
#[derive(Debug)]
pub struct OrderBook {
    pub symbol: String,
    /// Buy orders, by price level, highest price first
    bids: Vec<PriceLevel>,
    /// Sell orders, by price level, lowest price first
    asks: Vec<PriceLevel>,
    /// Fast lookup: order_id -> (side, price)
    order_locations: HashMap<u128, (Side, u64)>,
}

impl View for OrderBook {
    type V = BookView;

    closed spec fn view(&self) -> BookView {
        BookView {
            symbol: self.symbol@,
            bids: levels_view(self.bids@),
            asks: levels_view(self.asks@),
            locations: self.order_locations@,
        }
    }
}

/// Replacing the front level replaces the front of the view.
pub proof fn lemma_levels_view_update_front(s: Seq<PriceLevel>)
    requires
        s.len() > 0,
    ensures
        forall|x: PriceLevel| #[trigger] levels_view(s.update(0, x)) == levels_view(s).update(0, x@),
{
    assert forall|x: PriceLevel| #[trigger] levels_view(s.update(0, x)) == levels_view(s).update(0, x@) by {
        assert(levels_view(s.update(0, x)) =~= levels_view(s).update(0, x@));
    }
}

impl OrderBook {
    /// Every level's recorded total is the sum of its remaining quantities.
    pub closed spec fn levels_wf(&self) -> bool {
        &&& forall|i: int| 0 <= i < self.bids@.len() ==> (#[trigger] self.bids@[i]).wf()
        &&& forall|i: int| 0 <= i < self.asks@.len() ==> (#[trigger] self.asks@[i]).wf()
    }

    /// The book is well formed.
    pub open spec fn wf(&self) -> bool {
        self@.wf() && self.levels_wf()
    }

    pub fn new(symbol: String) -> (book: Self)
        ensures
            book@.symbol == symbol@,
            book@.bids == Seq::<LevelView>::empty(),
            book@.asks == Seq::<LevelView>::empty(),
            book@.locations == Map::<u128, (Side, u64)>::empty(),
            book.wf(),
    {
        let book = OrderBook {
            symbol,
            bids: Vec::new(),
            asks: Vec::new(),
            order_locations: HashMap::new(),
        };
        assert(book@.bids =~= Seq::<LevelView>::empty());
        assert(book@.asks =~= Seq::<LevelView>::empty());
        book
    }

    /// Adds a limit order to the book, behind the orders already resting at
    /// its price.
    pub fn add_order(&mut self, order: Order)
        requires
            old(self).wf(),
            order.price is Some,
            order_fits(order, order.side, order.price->0),
            !old(self)@.locations.contains_key(order.id),
            level_total_at(old(self)@.side(order.side), order.side, order.price->0) + order.remaining()
                <= u64::MAX,
        ensures
            final(self).wf(),
            final(self)@ == old(self)@.with_order(order),
    {
        proof {
            lemma_book_with_order(self@, order);
        }
        let price = order.price.unwrap();
        let side = order.side;
        let order_id = order.id;
        self.order_locations.insert(order_id, (side, price));
        match side {
            Side::Buy => add_to_side(&mut self.bids, side, order, price),
            Side::Sell => add_to_side(&mut self.asks, side, order, price),
        }
    }

    /// Removes an order by ID. Returns the removed order if found.
    pub fn remove_order(&mut self, order_id: u128) -> (removed: Option<Order>)
        requires
            old(self).wf(),
        ensures
            final(self).wf(),
            removed == old(self)@.find(order_id),
            final(self)@ == old(self)@.without(order_id),
    {
        let ghost b = self@;
        if !self.order_locations.contains_key(&order_id) {
            return None;
        }
        proof {
            lemma_book_without(b, order_id);
            let (s0, p) = b.locations[order_id];
            lemma_side_locate(b.side(s0), s0, order_id, p);
        }
        let (side, price) = *self.order_locations.get(&order_id).unwrap();
        self.order_locations.remove(&order_id);
        let removed = match side {
            Side::Buy => remove_from_side(&mut self.bids, side, price, order_id),
            Side::Sell => remove_from_side(&mut self.asks, side, price, order_id),
        };
        removed
    }

    /// Matches an incoming order on `taker` side, with limit `limit` (none for
    /// a market order) and `want` units to fill, against the other side in
    /// price-time priority at time `now`. Completely filled resting orders
    /// leave the book. Returns the fills, in execution order.
    pub fn match_incoming(&mut self, taker: Side, limit: Option<u64>, want: u64, now: i128) -> (fills: Vec<Fill>)
        requires
            old(self).wf(),
        ensures
            final(self).wf(),
            final(self)@ == old(self)@.after_match(taker, limit, want as nat, now),
            fills@ == old(self)@.match_fills(taker, limit, want as nat, now),
    {
        proof {
            lemma_book_after_match(self@, taker, limit, want as nat, now);
        }
        let ghost b = self@;
        let fills = match taker {
            Side::Buy => match_side(&mut self.asks, taker, limit, want, now),
            Side::Sell => match_side(&mut self.bids, taker, limit, want, now),
        };
        let mut j: usize = 0;
        while j < fills.len()
            invariant
                j <= fills@.len(),
                fills@ == b.match_fills(taker, limit, want as nat, now),
                self.order_locations@ == b.locations.remove_keys(done_set(fills@.subrange(0, j as int))),
                levels_view(self.bids@) == b.after_match(taker, limit, want as nat, now).bids,
                levels_view(self.asks@) == b.after_match(taker, limit, want as nat, now).asks,
                self.symbol@ == b.symbol,
                self.levels_wf(),
            decreases fills@.len() - j,
        {
            let ghost before = self.order_locations@;
            if fills[j].maker_done {
                self.order_locations.remove(&fills[j].maker_id);
            }
            proof {
                let f = fills@;
                let g1 = f.subrange(0, j + 1);
                let g0 = f.subrange(0, j as int);
                assert forall|id: u128| done_set(g1).contains(id) == (if f[j as int].maker_done {
                    done_set(g0).insert(f[j as int].maker_id)
                } else {
                    done_set(g0)
                }).contains(id) by {
                    if is_done_maker(g1, id) {
                        let a = choose|a: int| 0 <= a < g1.len() && g1[a].maker_id == id && g1[a].maker_done;
                        if a < j {
                            assert(g0[a] == g1[a]);
                        }
                    }
                    if is_done_maker(g0, id) {
                        let a = choose|a: int| 0 <= a < g0.len() && g0[a].maker_id == id && g0[a].maker_done;
                        assert(g1[a] == g0[a]);
                    }
                    if f[j as int].maker_done && id == f[j as int].maker_id {
                        assert(g1[j as int] == f[j as int]);
                    }
                }
                assert(done_set(g1) =~= if f[j as int].maker_done {
                    done_set(g0).insert(f[j as int].maker_id)
                } else {
                    done_set(g0)
                });
                assert(self.order_locations@ =~= b.locations.remove_keys(done_set(f.subrange(0, j + 1))));
            }
            j += 1;
        }
        proof {
            assert(fills@.subrange(0, j as int) =~= fills@);
            assert(self@ =~= b.after_match(taker, limit, want as nat, now));
        }
        fills
    }

    /// The book is the book of `symbol`.
    pub(crate) fn has_symbol(&self, symbol: &String) -> (b: bool)
        ensures
            b == (self@.symbol == symbol@),
    {
        self.symbol == *symbol
    }

    /// Returns the bid levels, highest price first.
    pub fn bids(&self) -> (levels: &Vec<PriceLevel>)
        ensures
            levels_view(levels@) == self@.bids,
            self.wf() ==> forall|i: int| 0 <= i < levels@.len() ==> (#[trigger] levels@[i]).wf(),
    {
        &self.bids
    }

    /// Returns the ask levels, lowest price first.
    pub fn asks(&self) -> (levels: &Vec<PriceLevel>)
        ensures
            levels_view(levels@) == self@.asks,
            self.wf() ==> forall|i: int| 0 <= i < levels@.len() ==> (#[trigger] levels@[i]).wf(),
    {
        &self.asks
    }

    /// Returns the bid levels for changing them in place: what is written
    /// through the reference becomes the book's bid side.
    pub fn bids_mut(&mut self) -> (levels: &mut Vec<PriceLevel>)
        ensures
            levels_view(levels@) == old(self)@.bids,
            old(self).wf() ==> forall|i: int| 0 <= i < levels@.len() ==> (#[trigger] levels@[i]).wf(),
            final(self)@ == (BookView { bids: levels_view(final(levels)@), ..old(self)@ }),
    {
        &mut self.bids
    }

    /// Returns the ask levels for changing them in place: what is written
    /// through the reference becomes the book's ask side.
    pub fn asks_mut(&mut self) -> (levels: &mut Vec<PriceLevel>)
        ensures
            levels_view(levels@) == old(self)@.asks,
            old(self).wf() ==> forall|i: int| 0 <= i < levels@.len() ==> (#[trigger] levels@[i]).wf(),
            final(self)@ == (BookView { asks: levels_view(final(levels)@), ..old(self)@ }),
    {
        &mut self.asks
    }

    /// Returns the best bid price (highest buy price).
    pub fn best_bid(&self) -> (p: Option<u64>)
        ensures
            p == best_price(self@.bids),
    {
        if self.bids.len() > 0 {
            Some(self.bids[0].price)
        } else {
            None
        }
    }

    /// Returns the best ask price (lowest sell price).
    pub fn best_ask(&self) -> (p: Option<u64>)
        ensures
            p == best_price(self@.asks),
    {
        if self.asks.len() > 0 {
            Some(self.asks[0].price)
        } else {
            None
        }
    }

    /// Returns a reference to the best bid price level.
    pub fn best_bid_level(&self) -> (level: Option<&PriceLevel>)
        ensures
            match level {
                Some(l) => self@.bids.len() > 0 && l@ == self@.bids[0] && (self.wf() ==> l.wf()),
                None => self@.bids.len() == 0,
            },
    {
        if self.bids.len() > 0 {
            Some(&self.bids[0])
        } else {
            None
        }
    }

    /// Returns a mutable reference to the best bid price level: what is
    /// written through it becomes the book's best bid level.
    pub fn best_bid_level_mut(&mut self) -> (level: Option<&mut PriceLevel>)
        ensures
            old(self)@.bids.len() == 0 ==> level is None && final(self)@ == old(self)@,
            old(self)@.bids.len() > 0 ==> level is Some && level->0@ == old(self)@.bids[0]
                && (old(self).wf() ==> level->0.wf())
                && final(self)@ == (BookView { bids: old(self)@.bids.update(0, final(level->0)@), ..old(self)@ }),
    {
        if self.bids.len() > 0 {
            proof {
                lemma_levels_view_update_front(self.bids@);
            }
            Some(&mut self.bids[0])
        } else {
            None
        }
    }

    /// Returns a reference to the best ask price level.
    pub fn best_ask_level(&self) -> (level: Option<&PriceLevel>)
        ensures
            match level {
                Some(l) => self@.asks.len() > 0 && l@ == self@.asks[0] && (self.wf() ==> l.wf()),
                None => self@.asks.len() == 0,
            },
    {
        if self.asks.len() > 0 {
            Some(&self.asks[0])
        } else {
            None
        }
    }

    /// Returns a mutable reference to the best ask price level: what is
    /// written through it becomes the book's best ask level.
    pub fn best_ask_level_mut(&mut self) -> (level: Option<&mut PriceLevel>)
        ensures
            old(self)@.asks.len() == 0 ==> level is None && final(self)@ == old(self)@,
            old(self)@.asks.len() > 0 ==> level is Some && level->0@ == old(self)@.asks[0]
                && (old(self).wf() ==> level->0.wf())
                && final(self)@ == (BookView { asks: old(self)@.asks.update(0, final(level->0)@), ..old(self)@ }),
    {
        if self.asks.len() > 0 {
            proof {
                lemma_levels_view_update_front(self.asks@);
            }
            Some(&mut self.asks[0])
        } else {
            None
        }
    }

    /// Removes the best bid price level if it holds no order.
    pub fn remove_best_bid_if_empty(&mut self)
        ensures
            final(self)@ == if old(self)@.bids.len() > 0 && old(self)@.bids[0].orders.len() == 0 {
                BookView { bids: old(self)@.bids.drop_first(), ..old(self)@ }
            } else {
                old(self)@
            },
            old(self).wf() ==> final(self).wf() && final(self)@ == old(self)@,
    {
        if self.bids.len() > 0 && self.bids[0].is_empty() {
            proof {
                assert(self.bids@[0]@ == self@.bids[0]);
            }
            let ghost before = self.bids@;
            self.bids.remove(0);
            proof {
                assert(levels_view(self.bids@) =~= levels_view(before).drop_first());
            }
        } else {
            proof {
                if self.bids@.len() > 0 {
                    assert(self.bids@[0]@ == self@.bids[0]);
                }
            }
        }
    }

    /// Removes the best ask price level if it holds no order.
    pub fn remove_best_ask_if_empty(&mut self)
        ensures
            final(self)@ == if old(self)@.asks.len() > 0 && old(self)@.asks[0].orders.len() == 0 {
                BookView { asks: old(self)@.asks.drop_first(), ..old(self)@ }
            } else {
                old(self)@
            },
            old(self).wf() ==> final(self).wf() && final(self)@ == old(self)@,
    {
        if self.asks.len() > 0 && self.asks[0].is_empty() {
            proof {
                assert(self.asks@[0]@ == self@.asks[0]);
            }
            let ghost before = self.asks@;
            self.asks.remove(0);
            proof {
                assert(levels_view(self.asks@) =~= levels_view(before).drop_first());
            }
        } else {
            proof {
                if self.asks@.len() > 0 {
                    assert(self.asks@[0]@ == self@.asks[0]);
                }
            }
        }
    }

    /// Removes an order from location tracking only; for use once the order
    /// has left its level.
    pub fn remove_order_location(&mut self, order_id: u128)
        ensures
            final(self)@ == (BookView { locations: old(self)@.locations.remove(order_id), ..old(self)@ }),
            old(self).levels_wf() ==> final(self).levels_wf(),
    {
        self.order_locations.remove(&order_id);
    }

    /// Returns total quantity available at the best bid.
    pub fn best_bid_quantity(&self) -> (q: u64)
        requires
            self.wf(),
        ensures
            q == best_quantity(self@.bids),
    {
        if self.bids.len() > 0 {
            self.bids[0].total_quantity()
        } else {
            0
        }
    }

    /// Returns total quantity available at the best ask.
    pub fn best_ask_quantity(&self) -> (q: u64)
        requires
            self.wf(),
        ensures
            q == best_quantity(self@.asks),
    {
        if self.asks.len() > 0 {
            self.asks[0].total_quantity()
        } else {
            0
        }
    }

    /// Returns total quantity available on the bid side.
    pub fn total_bid_quantity(&self) -> (q: u64)
        requires
            self.wf(),
            side_total(self@.bids) <= u64::MAX,
        ensures
            q == side_total(self@.bids),
    {
        sum_levels(&self.bids)
    }

    /// Returns total quantity available on the ask side.
    pub fn total_ask_quantity(&self) -> (q: u64)
        requires
            self.wf(),
            side_total(self@.asks) <= u64::MAX,
        ensures
            q == side_total(self@.asks),
    {
        sum_levels(&self.asks)
    }

    /// Total quantity resting on `side`, or `None` if it does not fit in a
    /// `u64`.
    pub fn checked_total_quantity(&self, side: Side) -> (q: Option<u64>)
        requires
            self.wf(),
        ensures
            match q {
                Some(t) => t == side_total(self@.side(side)),
                None => side_total(self@.side(side)) > u64::MAX,
            },
    {
        match side {
            Side::Buy => checked_sum_levels(&self.bids),
            Side::Sell => checked_sum_levels(&self.asks),
        }
    }

    /// Remaining quantity resting at `price` on `side`, or zero if no level
    /// has that price.
    pub fn quantity_at(&self, side: Side, price: u64) -> (q: u64)
        requires
            self.wf(),
        ensures
            q == level_total_at(self@.side(side), side, price),
    {
        match side {
            Side::Buy => level_quantity(&self.bids, side, price),
            Side::Sell => level_quantity(&self.asks, side, price),
        }
    }

    /// Returns total number of orders in the book.
    pub fn total_order_count(&self) -> (n: usize)
        ensures
            n == self@.locations.len(),
    {
        self.order_locations.len()
    }

    /// Returns number of bid price levels.
    pub fn bid_level_count(&self) -> (n: usize)
        ensures
            n == self@.bids.len(),
    {
        self.bids.len()
    }

    /// Returns number of ask price levels.
    pub fn ask_level_count(&self) -> (n: usize)
        ensures
            n == self@.asks.len(),
    {
        self.asks.len()
    }

    /// Checks if an order exists in the book.
    pub fn contains_order(&self, order_id: u128) -> (b: bool)
        ensures
            b == self@.locations.contains_key(order_id),
    {
        self.order_locations.contains_key(&order_id)
    }

    /// Gets order location (side, price) by ID.
    pub fn get_order_location(&self, order_id: u128) -> (loc: Option<(Side, u64)>)
        ensures
            loc == if self@.locations.contains_key(order_id) {
                Some(self@.locations[order_id])
            } else {
                None
            },
    {
        match self.order_locations.get(&order_id) {
            Some(loc) => Some(*loc),
            None => None,
        }
    }

    /// Creates an OrderBookResponse with the specified depth: up to `depth`
    /// levels per side, aggregated, best price first.
    pub fn to_response(&self, depth: usize) -> (r: OrderBookResponse)
        requires
            self.wf(),
        ensures
            r.symbol@ == self@.symbol,
            r.bids@ == depth_infos(self@.bids, depth as nat),
            r.asks@ == depth_infos(self@.asks, depth as nat),
    {
        let bids = level_infos(&self.bids, depth);
        let asks = level_infos(&self.asks, depth);
        OrderBookResponse::new(self.symbol.clone(), bids, asks)
    }
}

/// Exec form of `better`.
pub fn is_better(side: Side, a: u64, b: u64) -> (r: bool)
    ensures
        r == better(side, a, b),
{
    match side {
        Side::Buy => a > b,
        Side::Sell => a < b,
    }
}

/// Adds `order`, resting at `price` on `side`, to the levels of that side.
fn add_to_side(levels: &mut Vec<PriceLevel>, side: Side, order: Order, price: u64)
    requires
        side_sorted(levels_view(old(levels)@), side),
        forall|i: int| 0 <= i < old(levels)@.len() ==> (#[trigger] old(levels)@[i]).wf(),
        order.price == Some(price),
        level_total_at(levels_view(old(levels)@), side, price) + order.remaining() <= u64::MAX,
    ensures
        levels_view(final(levels)@) == side_with_order(levels_view(old(levels)@), side, order),
        forall|i: int| 0 <= i < final(levels)@.len() ==> (#[trigger] final(levels)@[i]).wf(),
{
    let ghost lv = levels_view(levels@);
    proof {
        lemma_insert_pos(lv, side, price);
    }
    let mut i: usize = 0;
    while i < levels.len() && is_better(side, levels[i].price, price)
        invariant
            i <= insert_pos(lv, side, price),
            lv == levels_view(levels@),
            levels@ == old(levels)@,
            insert_pos(lv, side, price) <= lv.len(),
            forall|j: int| 0 <= j < insert_pos(lv, side, price) ==> better(side, #[trigger] lv[j].price, price),
            forall|j: int|
                insert_pos(lv, side, price) <= j < lv.len() ==> !better(side, #[trigger] lv[j].price, price),
        decreases levels@.len() - i,
    {
        proof {
            assert(lv[i as int] == levels@[i as int]@);
            assert(better(side, lv[i as int].price, price));
            if i as int >= insert_pos(lv, side, price) {
                assert(!better(side, lv[i as int].price, price));
            }
        }
        i += 1;
    }
    assert(i == insert_pos(lv, side, price)) by {
        if i < insert_pos(lv, side, price) {
            assert(better(side, lv[i as int].price, price));
        }
    }
    if i < levels.len() && levels[i].price == price {
        let mut level = levels.remove(i);
        assert(level@ == lv[i as int]);
        level.add_order(order);
        levels.insert(i, level);
        proof {
            assert(levels_view(levels@) =~= side_with_order(lv, side, order));
        }
    } else {
        let mut level = PriceLevel::new(price);
        level.add_order(order);
        assert(level.orders@ =~= seq![order]);
        levels.insert(i, level);
        proof {
            assert(levels_view(levels@) =~= side_with_order(lv, side, order));
        }
    }
}

/// Removes the order with id `order_id` from the level at `price`.
fn remove_from_side(levels: &mut Vec<PriceLevel>, side: Side, price: u64, order_id: u128) -> (removed: Option<Order>)
    requires
        side_wf(levels_view(old(levels)@), side),
        forall|i: int| 0 <= i < old(levels)@.len() ==> (#[trigger] old(levels)@[i]).wf(),
        ({
            let lv = levels_view(old(levels)@);
            let i = insert_pos(lv, side, price) as int;
            let k = find_id(lv[i].orders, order_id) as int;
            &&& valid_pos(lv, i, k)
            &&& lv[i].price == price
            &&& id_at(lv, i, k) == order_id
        }),
    ensures
        ({
            let lv = levels_view(old(levels)@);
            let i = insert_pos(lv, side, price) as int;
            let k = find_id(lv[i].orders, order_id) as int;
            &&& removed == Some(lv[i].orders[k])
            &&& levels_view(final(levels)@) == side_without_at(lv, i, k)
        }),
        forall|i: int| 0 <= i < final(levels)@.len() ==> (#[trigger] final(levels)@[i]).wf(),
{
    let ghost lv = levels_view(levels@);
    proof {
        lemma_insert_pos(lv, side, price);
    }
    let mut i: usize = 0;
    while i < levels.len() && is_better(side, levels[i].price, price)
        invariant
            i <= insert_pos(lv, side, price),
            lv == levels_view(levels@),
            levels@ == old(levels)@,
            insert_pos(lv, side, price) < lv.len(),
            forall|j: int| 0 <= j < insert_pos(lv, side, price) ==> better(side, #[trigger] lv[j].price, price),
            forall|j: int|
                insert_pos(lv, side, price) <= j < lv.len() ==> !better(side, #[trigger] lv[j].price, price),
        decreases levels@.len() - i,
    {
        proof {
            assert(lv[i as int] == levels@[i as int]@);
            assert(better(side, lv[i as int].price, price));
            if i as int >= insert_pos(lv, side, price) {
                assert(!better(side, lv[i as int].price, price));
            }
        }
        i += 1;
    }
    assert(i == insert_pos(lv, side, price)) by {
        if i < insert_pos(lv, side, price) {
            assert(better(side, lv[i as int].price, price));
        }
    }
    let mut level = levels.remove(i);
    assert(level@ == lv[i as int]);
    let removed = level.remove_order(order_id);
    if level.is_empty() {
        proof {
            assert(levels_view(levels@) =~= side_without_at(lv, i as int, find_id(lv[i as int].orders, order_id) as int));
        }
    } else {
        levels.insert(i, level);
        proof {
            assert(levels_view(levels@) =~= side_without_at(lv, i as int, find_id(lv[i as int].orders, order_id) as int));
        }
    }
    removed
}

/// Exec form of `crosses`.
pub fn crosses_limit(taker: Side, limit: Option<u64>, price: u64) -> (r: bool)
    ensures
        r == crosses(taker, limit, price),
{
    match limit {
        None => true,
        Some(l) => match taker {
            Side::Buy => price <= l,
            Side::Sell => price >= l,
        },
    }
}

/// Total quantity of fills whose total fits in a `u64`.
fn total_filled(fills: &Vec<Fill>, bound: u64) -> (q: u64)
    requires
        fills_quantity(fills@) <= bound,
    ensures
        q == fills_quantity(fills@),
{
    let mut total: u64 = 0;
    let mut j: usize = 0;
    while j < fills.len()
        invariant
            j <= fills@.len(),
            fills_quantity(fills@) <= bound,
            total == fills_quantity(fills@.subrange(0, j as int)),
        decreases fills@.len() - j,
    {
        proof {
            let f = fills@;
            lemma_sum_concat(f.subrange(0, j as int), seq![f[j as int]]);
            assert(f.subrange(0, j as int) + seq![f[j as int]] =~= f.subrange(0, j + 1));
            assert(seq![f[j as int]].drop_first() =~= Seq::<Fill>::empty());
            assert(seq![f[j as int]][0] == f[j as int]);
            assert(fills_quantity(Seq::<Fill>::empty()) == 0);
            assert(fills_quantity(seq![f[j as int]]) == f[j as int].quantity);
            lemma_sum_concat(f.subrange(0, j + 1), f.subrange(j + 1, f.len() as int));
            assert(f.subrange(0, j + 1) + f.subrange(j + 1, f.len() as int) =~= f);
        }
        total = total + fills[j].quantity;
        j += 1;
    }
    proof {
        assert(fills@.subrange(0, j as int) =~= fills@);
    }
    total
}

/// Matches against the levels of one side, best first; see `match_levels`.
fn match_side(levels: &mut Vec<PriceLevel>, taker: Side, limit: Option<u64>, want: u64, now: i128) -> (fills: Vec<Fill>)
    requires
        side_wf(levels_view(old(levels)@), opposite(taker)),
        forall|i: int| 0 <= i < old(levels)@.len() ==> (#[trigger] old(levels)@[i]).wf(),
    ensures
        levels_view(final(levels)@) == match_levels(levels_view(old(levels)@), taker, limit, want as nat, now).0,
        fills@ == match_levels(levels_view(old(levels)@), taker, limit, want as nat, now).1,
        forall|i: int| 0 <= i < final(levels)@.len() ==> (#[trigger] final(levels)@[i]).wf(),
{
    let ghost lv0 = levels_view(levels@);
    let ghost s = opposite(taker);
    let mut fills: Vec<Fill> = Vec::new();
    let mut left: u64 = want;
    while left > 0 && levels.len() > 0 && crosses_limit(taker, limit, levels[0].price)
        invariant
            side_wf(levels_view(levels@), s),
            s == opposite(taker),
            forall|i: int| 0 <= i < levels@.len() ==> (#[trigger] levels@[i]).wf(),
            match_levels(levels_view(levels@), taker, limit, left as nat, now).0 == match_levels(lv0, taker, limit, want as nat, now).0,
            fills@ + match_levels(levels_view(levels@), taker, limit, left as nat, now).1 == match_levels(lv0, taker, limit, want as nat, now).1,
        decreases levels@.len() + (if left > 0 { 1int } else { 0int }),
    {
        let ghost lv = levels_view(levels@);
        proof {
            lemma_match_levels_shape(lv, taker, limit, left as nat, now);
            lemma_match_queue(lv[0].orders, lv[0].price, left as nat, now);
            assert(lv[0] == levels@[0]@);
        }
        let mut level = levels.remove(0);
        let mut lf = level.match_orders(left, now);
        let got = total_filled(&lf, left);
        let ghost lf_seq = lf@;
        let ghost before = fills@;
        fills.append(&mut lf);
        left = left - got;
        if level.is_empty() {
            proof {
                assert(levels_view(levels@) =~= lv.drop_first());
                lemma_side_wf_drop_first(lv, s);
                assert(before + lf_seq + match_levels(lv.drop_first(), taker, limit, left as nat, now).1 =~= before + (lf_seq
                    + match_levels(lv.drop_first(), taker, limit, left as nat, now).1));
            }
        } else {
            levels.insert(0, level);
            proof {
                assert(levels_view(levels@) =~= lv.update(0, LevelView { price: lv[0].price, orders: level@.orders }));
                assert(left == 0);
                assert(before + lf_seq + Seq::<Fill>::empty() =~= before + lf_seq);
            }
        }
    }
    proof {
        assert(fills@ + Seq::<Fill>::empty() =~= fills@);
    }
    fills
}

/// Sum of the recorded totals of well-formed levels.
fn sum_levels(levels: &Vec<PriceLevel>) -> (q: u64)
    requires
        forall|i: int| 0 <= i < levels@.len() ==> (#[trigger] levels@[i]).wf(),
        side_total(levels_view(levels@)) <= u64::MAX,
    ensures
        q == side_total(levels_view(levels@)),
{
    let ghost lv = levels_view(levels@);
    let mut total: u64 = 0;
    let mut i: usize = 0;
    while i < levels.len()
        invariant
            i <= levels@.len(),
            lv == levels_view(levels@),
            side_total(lv) <= u64::MAX,
            forall|j: int| 0 <= j < levels@.len() ==> (#[trigger] levels@[j]).wf(),
            total == side_total(lv.subrange(0, i as int)),
        decreases levels@.len() - i,
    {
        proof {
            assert(lv.subrange(0, i + 1).drop_last() =~= lv.subrange(0, i as int));
            assert(lv.subrange(0, i + 1).last() == lv[i as int]);
            lemma_side_total_prefix(lv, i + 1);
        }
        total = total + levels[i].total_quantity();
        i += 1;
    }
    proof {
        assert(lv.subrange(0, i as int) =~= lv);
    }
    total
}

/// Total remaining quantity of the levels, or `None` if it does not fit in a
/// `u64`.
fn checked_sum_levels(levels: &Vec<PriceLevel>) -> (q: Option<u64>)
    requires
        forall|i: int| 0 <= i < levels@.len() ==> (#[trigger] levels@[i]).wf(),
    ensures
        match q {
            Some(t) => t == side_total(levels_view(levels@)),
            None => side_total(levels_view(levels@)) > u64::MAX,
        },
{
    let ghost lv = levels_view(levels@);
    let mut total: u64 = 0;
    let mut i: usize = 0;
    while i < levels.len()
        invariant
            i <= levels@.len(),
            lv == levels_view(levels@),
            forall|j: int| 0 <= j < levels@.len() ==> (#[trigger] levels@[j]).wf(),
            total == side_total(lv.subrange(0, i as int)),
        decreases levels@.len() - i,
    {
        proof {
            assert(lv.subrange(0, i + 1).drop_last() =~= lv.subrange(0, i as int));
            assert(lv.subrange(0, i + 1).last() == lv[i as int]);
        }
        match total.checked_add(levels[i].total_quantity()) {
            Some(t) => {
                total = t;
            },
            None => {
                proof {
                    lemma_side_total_prefix(lv, i + 1);
                }
                return None;
            },
        }
        i += 1;
    }
    proof {
        assert(lv.subrange(0, i as int) =~= lv);
    }
    Some(total)
}

/// Remaining quantity resting at `price` on a sorted side, or zero.
fn level_quantity(levels: &Vec<PriceLevel>, side: Side, price: u64) -> (q: u64)
    requires
        forall|i: int| 0 <= i < levels@.len() ==> (#[trigger] levels@[i]).wf(),
        side_sorted(levels_view(levels@), side),
    ensures
        q == level_total_at(levels_view(levels@), side, price),
{
    let ghost lv = levels_view(levels@);
    proof {
        lemma_insert_pos(lv, side, price);
    }
    let mut i: usize = 0;
    while i < levels.len() && is_better(side, levels[i].price, price)
        invariant
            i <= levels@.len(),
            lv == levels_view(levels@),
            forall|j: int| 0 <= j < i ==> better(side, #[trigger] lv[j].price, price),
        decreases levels@.len() - i,
    {
        proof {
            assert(lv[i as int] == levels@[i as int]@);
        }
        i += 1;
    }
    proof {
        let ip = insert_pos(lv, side, price) as int;
        if ip < i {
            assert(better(side, lv[ip].price, price));
        }
        if i < ip {
            assert(lv[i as int] == levels@[i as int]@);
            assert(better(side, lv[i as int].price, price));
        }
    }
    if i < levels.len() && levels[i].price == price {
        proof {
            assert(lv[i as int] == levels@[i as int]@);
        }
        levels[i].total_quantity()
    } else {
        proof {
            if i < levels.len() {
                assert(lv[i as int] == levels@[i as int]@);
            }
        }
        0
    }
}

/// The aggregated first `depth` levels, best first.
fn level_infos(levels: &Vec<PriceLevel>, depth: usize) -> (infos: Vec<PriceLevelInfo>)
    requires
        forall|i: int| 0 <= i < levels@.len() ==> (#[trigger] levels@[i]).wf(),
    ensures
        infos@ == depth_infos(levels_view(levels@), depth as nat),
{
    let mut infos: Vec<PriceLevelInfo> = Vec::new();
    let mut i: usize = 0;
    while i < levels.len() && i < depth
        invariant
            i <= levels@.len(),
            i <= depth,
            forall|j: int| 0 <= j < levels@.len() ==> (#[trigger] levels@[j]).wf(),
            infos@ == depth_infos(levels_view(levels@), depth as nat).subrange(0, i as int),
        decreases levels@.len() - i,
    {
        let level = &levels[i];
        infos.push(PriceLevelInfo { price: level.price, quantity: level.total_quantity() });
        proof {
            let d = depth_infos(levels_view(levels@), depth as nat);
            assert(infos@ =~= d.subrange(0, i + 1));
        }
        i += 1;
    }
    proof {
        let d = depth_infos(levels_view(levels@), depth as nat);
        assert(infos@ =~= d);
    }
    infos
}

} // verus!
