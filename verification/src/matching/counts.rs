//! Counting stored and resting orders.
use vstd::prelude::*;

use crate::matching::engine::{book_order, EngineView};
use crate::models::order::{Order, OrderStatus};
use crate::orderbook::book::{id_at, side_has, valid_pos, BookView};

verus! {

/// The number of ids among `ids` whose stored order satisfies `p`.
pub open spec fn count_where(ids: Seq<u128>, m: Map<u128, Order>, p: spec_fn(Order) -> bool) -> nat
    decreases ids.len(),
{
    if ids.len() == 0 {
        0
    } else {
        count_where(ids.drop_last(), m, p) + if p(m[ids.last()]) {
            1nat
        } else {
            0nat
        }
    }
}

/// The ids of the stored orders that satisfy `p`.
pub open spec fn stored_where(m: Map<u128, Order>, p: spec_fn(Order) -> bool) -> Set<u128> {
    m.dom().filter(|id: u128| p(m[id]))
}

/// An order that has been filled at least in part.
pub open spec fn was_matched(o: Order) -> bool {
    o.filled_quantity > 0
}

/// An order that has been cancelled.
pub open spec fn was_cancelled(o: Order) -> bool {
    o.status == OrderStatus::Cancelled
}

/// The ids of the stored orders counted as matched.
pub open spec fn matched_ids(m: Map<u128, Order>) -> Set<u128> {
    stored_where(m, |o: Order| was_matched(o))
}

/// The ids of the stored orders counted as cancelled.
pub open spec fn cancelled_ids(m: Map<u128, Order>) -> Set<u128> {
    stored_where(m, |o: Order| was_cancelled(o))
}

/// Counting over distinct ids is counting the set they make.
pub proof fn lemma_count_where(ids: Seq<u128>, m: Map<u128, Order>, p: spec_fn(Order) -> bool)
    requires
        ids.no_duplicates(),
    ensures
        count_where(ids, m, p) == ids.to_set().filter(|id: u128| p(m[id])).len(),
        ids.to_set().filter(|id: u128| p(m[id])).finite(),
    decreases ids.len(),
{
    let f = |id: u128| p(m[id]);
    if ids.len() == 0 {
        assert(ids.to_set().filter(f) =~= Set::<u128>::empty());
    } else {
        let k = ids.last();
        let rest = ids.drop_last();
        assert(rest.no_duplicates());
        lemma_count_where(rest, m, p);
        assert(rest.push(k) =~= ids);
        rest.lemma_push_to_set_commute(k);
        assert(!rest.to_set().contains(k)) by {
            if rest.to_set().contains(k) {
                let i = choose|i: int| 0 <= i < rest.len() && rest[i] == k;
                assert(ids[i] == ids[ids.len() - 1]);
            }
        }
        if p(m[k]) {
            assert(ids.to_set().filter(f) =~= rest.to_set().filter(f).insert(k));
        } else {
            assert(ids.to_set().filter(f) =~= rest.to_set().filter(f));
        }
    }
}

/// The number of orders resting in the first `n` books.
pub open spec fn resting_upto(books: Seq<BookView>, n: nat) -> nat
    decreases n,
{
    if n == 0 {
        0
    } else {
        resting_upto(books, (n - 1) as nat) + books[n - 1].locations.len()
    }
}

/// The number of orders resting in all the books.
pub open spec fn resting_total(books: Seq<BookView>) -> nat {
    resting_upto(books, books.len())
}

/// The ids of the orders resting in the first `n` books.
pub open spec fn resting_ids_upto(books: Seq<BookView>, n: nat) -> Set<u128>
    decreases n,
{
    if n == 0 {
        Set::empty()
    } else {
        resting_ids_upto(books, (n - 1) as nat) + books[n - 1].locations.dom()
    }
}

/// An order resting in a book of a consistent engine is stored, under the
/// book's symbol, and active.
pub proof fn lemma_location_stored(e: EngineView, i: int, id: u128)
    requires
        e.wf(),
        0 <= i < e.books.len(),
        e.books[i].locations.contains_key(id),
    ensures
        e.orders.contains_key(id),
        e.orders[id].symbol@ == e.books[i].symbol,
        e.orders[id].active(),
{
    let b = e.books[i];
    assert(b.wf());
    let (s, p) = b.locations[id];
    assert(side_has(b.side(s), id, p));
    let (l, k) = choose|l: int, k: int|
        valid_pos(b.side(s), l, k) && b.side(s)[l].price == p && #[trigger] id_at(b.side(s), l, k) == id;
    assert(book_order(e.books, i, s, l, k).id == id);
}

/// In a consistent engine the books hold distinct orders, all stored: the
/// resting ids of the first `n` books are stored ids, as many as the books
/// hold.
pub proof fn lemma_resting_ids(e: EngineView, n: nat)
    requires
        e.wf(),
        n <= e.books.len(),
    ensures
        resting_ids_upto(e.books, n).subset_of(e.orders.dom()),
        resting_ids_upto(e.books, n).finite(),
        resting_ids_upto(e.books, n).len() == resting_upto(e.books, n),
        forall|id: u128|
            #[trigger] resting_ids_upto(e.books, n).contains(id) ==> exists|j: int|
                0 <= j < n && e.books[j].locations.contains_key(id),
    decreases n,
{
    if n > 0 {
        let m = (n - 1) as nat;
        lemma_resting_ids(e, m);
        let a = resting_ids_upto(e.books, m);
        let b = e.books[m as int].locations.dom();
        assert forall|id: u128| b.contains(id) implies e.orders.dom().contains(id) by {
            lemma_location_stored(e, m as int, id);
        }
        vstd::set_lib::lemma_len_subset(b, e.orders.dom());
        assert(a.disjoint(b)) by {
            assert forall|id: u128| a.contains(id) implies !b.contains(id) by {
                let j = choose|j: int| 0 <= j < m && e.books[j].locations.contains_key(id);
                if b.contains(id) {
                    lemma_location_stored(e, j, id);
                    lemma_location_stored(e, m as int, id);
                    assert(e.books[j].symbol != e.books[m as int].symbol);
                }
            }
        }
        vstd::set_lib::lemma_set_disjoint_lens(a, b);
        assert forall|id: u128| #[trigger] (a + b).contains(id) implies exists|j: int|
            0 <= j < n && e.books[j].locations.contains_key(id) by {
            if !a.contains(id) {
                assert(e.books[m as int].locations.contains_key(id));
            }
        }
    }
}

/// In a consistent engine the books hold no more orders than are stored.
pub proof fn lemma_resting_total(e: EngineView, n: nat)
    requires
        e.wf(),
        n <= e.books.len(),
    ensures
        resting_upto(e.books, n) <= e.orders.len(),
{
    lemma_resting_ids(e, n);
    vstd::set_lib::lemma_len_subset(resting_ids_upto(e.books, n), e.orders.dom());
}

/// An order resting in one of the first `n` books is among their resting ids.
proof fn lemma_resting_ids_has(books: Seq<BookView>, n: nat, j: int, id: u128)
    requires
        0 <= j < n <= books.len(),
        books[j].locations.contains_key(id),
    ensures
        resting_ids_upto(books, n).contains(id),
    decreases n,
{
    if j < n - 1 {
        lemma_resting_ids_has(books, (n - 1) as nat, j, id);
    }
}

/// In a consistent engine the orders resting in the books are exactly the
/// stored orders that are still active, so the books hold as many orders as
/// are active.
pub proof fn lemma_resting_are_active(e: EngineView)
    requires
        e.wf(),
    ensures
        resting_ids_upto(e.books, e.books.len()) == stored_where(e.orders, |o: Order| o.active()),
        resting_total(e.books) == stored_where(e.orders, |o: Order| o.active()).len(),
{
    let n = e.books.len();
    let ids = resting_ids_upto(e.books, n);
    let act = stored_where(e.orders, |o: Order| o.active());
    lemma_resting_ids(e, n);
    assert forall|id: u128| ids.contains(id) implies act.contains(id) by {
        let j = choose|j: int| 0 <= j < n && e.books[j].locations.contains_key(id);
        lemma_location_stored(e, j, id);
    }
    assert forall|id: u128| act.contains(id) implies ids.contains(id) by {
        let o = e.orders[id];
        assert(e.orders.contains_key(id));
        let p = crate::matching::engine::book_pos(e.books, o.symbol@) as int;
        lemma_resting_ids_has(e.books, n, p, id);
    }
    assert(ids =~= act);
}

} // verus!
