use std::collections::VecDeque;
use vstd::prelude::*;

use crate::models::order::Order;

verus! {

/// Sum of the remaining quantities of a sequence of orders.
pub open spec fn sum_remaining(s: Seq<Order>) -> nat
    decreases s.len(),
{
    if s.len() == 0 {
        0
    } else {
        s[0].remaining() + sum_remaining(s.drop_first())
    }
}

/// Index of the first order in `s` with id `id`, or `s.len()` if there is none.
pub open spec fn find_id(s: Seq<Order>, id: u128) -> nat
    decreases s.len(),
{
    if s.len() == 0 {
        0
    } else if s[0].id == id {
        0
    } else {
        1 + find_id(s.drop_first(), id)
    }
}

/// One execution against a resting (maker) order.
#[derive(Debug, Clone, Copy)]
pub struct Fill {
    /// Id of the resting order that was executed against
    pub maker_id: u128,
    /// Price of the level the resting order rested at
    pub price: u64,
    /// Quantity executed
    pub quantity: u64,
    /// The resting order was completely filled and left the book
    pub maker_done: bool,
}

/// Matches `want` units against the FIFO queue `q` of orders resting at
/// `price`, oldest first: each resting order in turn is filled as far as
/// possible, until `want` is exhausted or the queue is. Yields the queue that
/// remains and the fills, in order.
pub open spec fn match_queue(q: Seq<Order>, price: u64, want: nat, now: i128) -> (Seq<Order>, Seq<Fill>)
    decreases q.len(),
{
    if want == 0 || q.len() == 0 {
        (q, Seq::empty())
    } else {
        let maker = q[0];
        if want >= maker.remaining() {
            let fill = Fill {
                maker_id: maker.id,
                price,
                quantity: maker.remaining() as u64,
                maker_done: true,
            };
            let rest = match_queue(q.drop_first(), price, (want - maker.remaining()) as nat, now);
            (rest.0, seq![fill] + rest.1)
        } else {
            let fill = Fill { maker_id: maker.id, price, quantity: want as u64, maker_done: false };
            (q.update(0, maker.after_fill(want as u64, now)), seq![fill])
        }
    }
}

/// Total quantity of a sequence of fills.
pub open spec fn fills_quantity(fills: Seq<Fill>) -> nat
    decreases fills.len(),
{
    if fills.len() == 0 {
        0
    } else {
        fills[0].quantity as nat + fills_quantity(fills.drop_first())
    }
}

/// Adding an order at the back adds its remaining quantity.
pub proof fn lemma_sum_push(s: Seq<Order>, o: Order)
    ensures
        sum_remaining(s.push(o)) == sum_remaining(s) + o.remaining(),
    decreases s.len(),
{
    let t = s.push(o);
    if s.len() == 0 {
        assert(t.drop_first() =~= Seq::<Order>::empty());
        assert(t[0] == o);
        assert(sum_remaining(t.drop_first()) == 0);
        assert(sum_remaining(t) == o.remaining());
    } else {
        assert(t.drop_first() =~= s.drop_first().push(o));
        assert(t[0] == s[0]);
        lemma_sum_push(s.drop_first(), o);
        assert(sum_remaining(t) == s[0].remaining() + sum_remaining(t.drop_first()));
        assert(sum_remaining(s) == s[0].remaining() + sum_remaining(s.drop_first()));
    }
}

/// Taking an order out takes its remaining quantity away.
pub proof fn lemma_sum_remove(s: Seq<Order>, i: int)
    requires
        0 <= i < s.len(),
    ensures
        sum_remaining(s.remove(i)) + s[i].remaining() == sum_remaining(s),
    decreases s.len(),
{
    if i == 0 {
        assert(s.remove(0) =~= s.drop_first());
    } else {
        assert(s.remove(i).drop_first() =~= s.drop_first().remove(i - 1));
        lemma_sum_remove(s.drop_first(), i - 1);
    }
}

/// Two runs of fills total the sum of their totals.
pub proof fn lemma_sum_concat(a: Seq<Fill>, b: Seq<Fill>)
    ensures
        fills_quantity(a + b) == fills_quantity(a) + fills_quantity(b),
    decreases a.len(),
{
    if a.len() == 0 {
        assert(a + b =~= b);
    } else {
        assert((a + b).drop_first() =~= a.drop_first() + b);
        lemma_sum_concat(a.drop_first(), b);
    }
}

/// `find_id` gives the first position with the id, or the length.
pub proof fn lemma_find_id(s: Seq<Order>, id: u128)
    ensures
        find_id(s, id) <= s.len(),
        find_id(s, id) < s.len() ==> s[find_id(s, id) as int].id == id,
        forall|j: int| 0 <= j < find_id(s, id) ==> s[j].id != id,
    decreases s.len(),
{
    if s.len() > 0 && s[0].id != id {
        lemma_find_id(s.drop_first(), id);
        assert forall|j: int| 0 <= j < find_id(s, id) implies s[j].id != id by {
            if j > 0 {
                assert(s[j] == s.drop_first()[j - 1]);
            }
        }
    }
}

/// Matching against a queue fills as much as is wanted or as the queue
/// holds, whichever is less, and takes exactly that much out of the queue.
pub proof fn lemma_match_queue(q: Seq<Order>, price: u64, want: nat, now: i128)
    ensures
        ({
            let (rest, fills) = match_queue(q, price, want, now);
            &&& fills_quantity(fills) == if want <= sum_remaining(q) { want } else { sum_remaining(q) }
            &&& sum_remaining(rest) + fills_quantity(fills) == sum_remaining(q)
            &&& rest.len() > 0 ==> fills_quantity(fills) == want
        }),
    decreases q.len(),
{
    if want == 0 || q.len() == 0 {
    } else {
        let maker = q[0];
        assert(sum_remaining(q) == maker.remaining() + sum_remaining(q.drop_first()));
        if want >= maker.remaining() {
            lemma_match_queue(q.drop_first(), price, (want - maker.remaining()) as nat, now);
            let rest = match_queue(q.drop_first(), price, (want - maker.remaining()) as nat, now);
            let fill = Fill {
                maker_id: maker.id,
                price,
                quantity: maker.remaining() as u64,
                maker_done: true,
            };
            assert((seq![fill] + rest.1).drop_first() =~= rest.1);
            assert((seq![fill] + rest.1)[0] == fill);
            assert(fill.quantity == maker.remaining());
            assert(fills_quantity(seq![fill] + rest.1) == fill.quantity + fills_quantity(rest.1));
        } else {
            let fill = Fill { maker_id: maker.id, price, quantity: want as u64, maker_done: false };
            assert(seq![fill].drop_first() =~= Seq::<Fill>::empty());
            assert(seq![fill][0] == fill);
            let m2 = maker.after_fill(want as u64, now);
            let q2 = q.update(0, m2);
            assert(q2.drop_first() =~= q.drop_first());
            assert(q2[0] == m2);
            assert(m2.remaining() + want == maker.remaining());
            assert(fills_quantity(seq![fill]) == fill.quantity + fills_quantity(Seq::<Fill>::empty()));
            assert(fills_quantity(seq![fill]) == want);
        }
    }
}

/// No two orders of `q` share an id.
pub open spec fn queue_unique(q: Seq<Order>) -> bool {
    forall|a: int, b: int| 0 <= a < b < q.len() ==> q[a].id != q[b].id
}

/// Some fill of `fills` completely filled the order with id `id`.
pub open spec fn is_done_maker(fills: Seq<Fill>, id: u128) -> bool {
    exists|j: int| 0 <= j < fills.len() && fills[j].maker_id == id && fills[j].maker_done
}

/// Some fill of `fills` executed against the order with id `id`.
pub open spec fn is_maker(fills: Seq<Fill>, id: u128) -> bool {
    exists|j: int| 0 <= j < fills.len() && fills[j].maker_id == id
}

/// No two fills of `fills` executed against the same order.
pub open spec fn makers_distinct(fills: Seq<Fill>) -> bool {
    forall|a: int, b: int| 0 <= a < b < fills.len() ==> fills[a].maker_id != fills[b].maker_id
}

/// The order `o` after every fill of `fills` against it, in order, at time `now`.
pub open spec fn apply_fills_to(o: Order, fills: Seq<Fill>, now: i128) -> Order
    decreases fills.len(),
{
    if fills.len() == 0 {
        o
    } else {
        let o1 = if fills[0].maker_id == o.id {
            o.after_fill(fills[0].quantity, now)
        } else {
            o
        };
        apply_fills_to(o1, fills.drop_first(), now)
    }
}

/// Fills against other orders leave an order as it was.
pub proof fn lemma_apply_no_fill(o: Order, fills: Seq<Fill>, now: i128)
    requires
        !is_maker(fills, o.id),
    ensures
        apply_fills_to(o, fills, now) == o,
    decreases fills.len(),
{
    if fills.len() > 0 {
        assert(fills[0].maker_id != o.id);
        assert forall|j: int| 0 <= j < fills.drop_first().len() implies fills.drop_first()[j].maker_id != o.id by {
            assert(fills.drop_first()[j] == fills[j + 1]);
        }
        lemma_apply_no_fill(o, fills.drop_first(), now);
    }
}

/// Applying two runs of fills is applying the first, then the second; the
/// order keeps its id.
pub proof fn lemma_apply_concat(o: Order, a: Seq<Fill>, b: Seq<Fill>, now: i128)
    ensures
        apply_fills_to(o, a + b, now) == apply_fills_to(apply_fills_to(o, a, now), b, now),
        apply_fills_to(o, a, now).id == o.id,
    decreases a.len(),
{
    if a.len() == 0 {
        assert(a + b =~= b);
    } else {
        assert((a + b).drop_first() =~= a.drop_first() + b);
        assert((a + b)[0] == a[0]);
        let o1 = if a[0].maker_id == o.id { o.after_fill(a[0].quantity, now) } else { o };
        lemma_apply_concat(o1, a.drop_first(), b, now);
    }
}

/// An order that exactly one fill executed against ends up with that fill
/// applied.
pub proof fn lemma_apply_single(o: Order, fills: Seq<Fill>, j: int, now: i128)
    requires
        makers_distinct(fills),
        0 <= j < fills.len(),
        fills[j].maker_id == o.id,
    ensures
        apply_fills_to(o, fills, now) == o.after_fill(fills[j].quantity, now),
    decreases fills.len(),
{
    if j == 0 {
        let o1 = o.after_fill(fills[0].quantity, now);
        assert forall|i: int| 0 <= i < fills.drop_first().len() implies fills.drop_first()[i].maker_id != o1.id by {
            assert(fills.drop_first()[i] == fills[i + 1]);
        }
        lemma_apply_no_fill(o1, fills.drop_first(), now);
    } else {
        assert(fills[0].maker_id != o.id);
        assert forall|a: int, b: int| 0 <= a < b < fills.drop_first().len() implies fills.drop_first()[a].maker_id
            != fills.drop_first()[b].maker_id by {
            assert(fills.drop_first()[a] == fills[a + 1] && fills.drop_first()[b] == fills[b + 1]);
        }
        assert(fills.drop_first()[j - 1] == fills[j]);
        lemma_apply_single(o, fills.drop_first(), j - 1, now);
    }
}

/// What matching against a queue does, position by position: the first `d`
/// orders (`d` being how many fewer orders are left) were completely filled,
/// the `j`-th fill executed against the `j`-th order, and every order left is
/// the order at the same place behind them with its fills applied; only the
/// first of them may have been touched, by a last, partial fill.
#[verifier::spinoff_prover]
#[verifier::rlimit(80)]
pub proof fn lemma_match_queue_shape(q: Seq<Order>, price: u64, want: nat, now: i128)
    requires
        queue_unique(q),
    ensures
        ({
            let (rest, fills) = match_queue(q, price, want, now);
            let d = q.len() - rest.len();
            &&& 0 <= d <= q.len()
            &&& fills.len() == d || (fills.len() == d + 1 && rest.len() > 0)
            &&& forall|j: int|
                0 <= j < fills.len() ==> {
                    let f = #[trigger] fills[j];
                    &&& f.maker_id == q[j].id
                    &&& f.price == price
                    &&& f.quantity <= q[j].remaining()
                    &&& (f.maker_done <==> j < d)
                    &&& (f.maker_done ==> f.quantity == q[j].remaining())
                    &&& (!f.maker_done ==> 0 < f.quantity < q[j].remaining())
                }
            &&& forall|k: int| 0 <= k < d ==> is_done_maker(fills, #[trigger] q[k].id)
            &&& forall|k: int|
                0 <= k < rest.len() ==> {
                    &&& #[trigger] rest[k] == apply_fills_to(q[k + d], fills, now)
                    &&& !is_done_maker(fills, rest[k].id)
                    &&& (rest[k] == q[k + d] || (k == 0 && fills.len() == d + 1 && rest[0] == q[d].after_fill(
                        fills[d].quantity,
                        now,
                    )))
                }
            &&& makers_distinct(fills)
        }),
    decreases q.len(),
{
    let (rest, fills) = match_queue(q, price, want, now);
    if want == 0 || q.len() == 0 {
        assert forall|k: int| 0 <= k < rest.len() implies #[trigger] rest[k] == apply_fills_to(q[k], fills, now) by {}
    } else {
        let maker = q[0];
        let q1 = q.drop_first();
        assert forall|a: int, b: int| 0 <= a < b < q1.len() implies q1[a].id != q1[b].id by {
            assert(q1[a] == q[a + 1] && q1[b] == q[b + 1]);
        }
        if want >= maker.remaining() {
            let w1 = (want - maker.remaining()) as nat;
            lemma_match_queue_shape(q1, price, w1, now);
            let (rest1, fills1) = match_queue(q1, price, w1, now);
            let fill = Fill { maker_id: maker.id, price, quantity: maker.remaining() as u64, maker_done: true };
            assert(fills == seq![fill] + fills1);
            assert(rest == rest1);
            let d = q.len() - rest.len();
            let d1 = q1.len() - rest1.len();
            assert(d == d1 + 1);
            assert forall|j: int| 0 <= j < fills.len() implies {
                let f = #[trigger] fills[j];
                &&& f.maker_id == q[j].id
                &&& f.price == price
                &&& f.quantity <= q[j].remaining()
                &&& (f.maker_done <==> j < d)
                &&& (f.maker_done ==> f.quantity == q[j].remaining())
                &&& (!f.maker_done ==> 0 < f.quantity < q[j].remaining())
            } by {
                if j > 0 {
                    assert(fills[j] == fills1[j - 1]);
                    assert(q[j] == q1[j - 1]);
                }
            }
            assert forall|k: int| 0 <= k < d implies is_done_maker(fills, #[trigger] q[k].id) by {
                if k == 0 {
                    assert(fills[0] == fill);
                } else {
                    assert(q[k] == q1[k - 1]);
                    assert(is_done_maker(fills1, q1[k - 1].id));
                    let j = choose|j: int| 0 <= j < fills1.len() && fills1[j].maker_id == q1[k - 1].id && fills1[j].maker_done;
                    assert(fills[j + 1] == fills1[j]);
                }
            }
            assert forall|k: int| 0 <= k < rest.len() implies {
                &&& #[trigger] rest[k] == apply_fills_to(q[k + d], fills, now)
                &&& !is_done_maker(fills, rest[k].id)
                &&& (rest[k] == q[k + d] || (k == 0 && fills.len() == d + 1 && rest[0] == q[d].after_fill(
                    fills[d].quantity,
                    now,
                )))
            } by {
                assert(q[k + d] == q1[k + d1]);
                assert(q[k + d].id != maker.id);
                assert(fills.drop_first() =~= fills1);
                assert(fills[0].maker_id != q[k + d].id);
                assert(apply_fills_to(q[k + d], fills, now) == apply_fills_to(q[k + d], fills1, now));
                assert(rest1[k] == apply_fills_to(q1[k + d1], fills1, now));
                lemma_apply_concat(q[k + d], fills1, Seq::<Fill>::empty(), now);
                assert(rest[k].id == q[k + d].id);
                if is_done_maker(fills, rest[k].id) {
                    let j = choose|j: int| 0 <= j < fills.len() && fills[j].maker_id == rest[k].id && fills[j].maker_done;
                    assert(j > 0);
                    assert(fills1[j - 1] == fills[j]);
                }
                if k == 0 && fills1.len() == d1 + 1 {
                    assert(fills[d] == fills1[d1]);
                }
            }
            assert forall|a: int, b: int| 0 <= a < b < fills.len() implies fills[a].maker_id != fills[b].maker_id by {
                if a == 0 {
                    assert(fills[b] == fills1[b - 1]);
                    assert(q[b] == q1[b - 1]);
                } else {
                    assert(fills[a] == fills1[a - 1] && fills[b] == fills1[b - 1]);
                }
            }
        } else {
            let m2 = maker.after_fill(want as u64, now);
            let fill = Fill { maker_id: maker.id, price, quantity: want as u64, maker_done: false };
            assert(rest == q.update(0, m2));
            assert(fills == seq![fill]);
            assert(fills.drop_first() =~= Seq::<Fill>::empty());
            assert forall|k: int| 0 <= k < rest.len() implies {
                &&& #[trigger] rest[k] == apply_fills_to(q[k], fills, now)
                &&& !is_done_maker(fills, rest[k].id)
                &&& (rest[k] == q[k] || (k == 0 && fills.len() == 1 && rest[0] == q[0].after_fill(
                    fills[0].quantity,
                    now,
                )))
            } by {
                if k == 0 {
                    assert(apply_fills_to(q[0], fills, now) == apply_fills_to(m2, fills.drop_first(), now));
                } else {
                    assert(q[k].id != maker.id);
                    assert(apply_fills_to(q[k], fills, now) == apply_fills_to(q[k], fills.drop_first(), now));
                }
                if is_done_maker(fills, rest[k].id) {
                    let j = choose|j: int| 0 <= j < fills.len() && fills[j].maker_id == rest[k].id && fills[j].maker_done;
                    assert(fills[j] == fill);
                }
            }
        }
    }
}

/// The fills of a match, and how many orders it leaves, do not depend on the
/// time it happens at.
pub proof fn lemma_match_queue_time(q: Seq<Order>, price: u64, want: nat, now1: i128, now2: i128)
    ensures
        match_queue(q, price, want, now1).1 == match_queue(q, price, want, now2).1,
        match_queue(q, price, want, now1).0.len() == match_queue(q, price, want, now2).0.len(),
    decreases q.len(),
{
    if want > 0 && q.len() > 0 && want >= q[0].remaining() {
        lemma_match_queue_time(q.drop_first(), price, (want - q[0].remaining()) as nat, now1, now2);
    }
}

/// Fills change only how much of an order is filled, its status and when it
/// last changed.
pub proof fn lemma_apply_keeps(o: Order, fills: Seq<Fill>, now: i128)
    ensures
        ({
            let a = apply_fills_to(o, fills, now);
            &&& a.id == o.id
            &&& a.symbol == o.symbol
            &&& a.side == o.side
            &&& a.order_type == o.order_type
            &&& a.price == o.price
            &&& a.quantity == o.quantity
            &&& a.created_at == o.created_at
        }),
    decreases fills.len(),
{
    if fills.len() > 0 {
        let o1 = if fills[0].maker_id == o.id { o.after_fill(fills[0].quantity, now) } else { o };
        lemma_apply_keeps(o1, fills.drop_first(), now);
    }
}

/// `VecDeque::front_mut`: a mutable reference to the first element, or
/// `None` if the deque is empty; what is written through it becomes the
/// deque's first element.
#[verifier::external_body]
fn deque_front_mut<T>(d: &mut VecDeque<T>) -> (r: Option<&mut T>)
    ensures
        old(d)@.len() == 0 ==> r is None && final(d)@ == old(d)@,
        old(d)@.len() > 0 ==> r is Some && *r->0 == old(d)@[0] && final(d)@ == old(d)@.update(0, *final(r->0)),
{
    d.front_mut()
}

/// Represents a single price level in the order book.
/// Orders at the same price are stored in FIFO order for time priority.
#[derive(Debug)]
pub struct PriceLevel {
    pub price: u64,
    /// Orders stored in FIFO order (front = oldest, back = newest)
    pub orders: VecDeque<Order>,
    /// Total quantity available at this price level
    pub total_quantity: u64,
}

/// Abstract view of a price level: its price and its FIFO queue of orders.
pub struct LevelView {
    pub price: u64,
    pub orders: Seq<Order>,
}

impl View for PriceLevel {
    type V = LevelView;

    open spec fn view(&self) -> LevelView {
        LevelView { price: self.price, orders: self.orders@ }
    }
}

impl PriceLevel {
    /// The recorded total is the sum of the remaining quantities of the queue.
    pub open spec fn wf(&self) -> bool {
        self.total_quantity == sum_remaining(self.orders@)
    }

    /// The recorded total quantity.
    pub open spec fn total(&self) -> u64 {
        self.total_quantity
    }

    pub fn new(price: u64) -> (level: Self)
        ensures
            level.price == price,
            level.orders@ == Seq::<Order>::empty(),
            level.total() == 0,
            level.wf(),
    {
        PriceLevel { price, orders: VecDeque::new(), total_quantity: 0 }
    }

    /// Adds an order to the back of the queue (newest).
    pub fn add_order(&mut self, order: Order)
        requires
            old(self).total() + order.remaining() <= u64::MAX,
        ensures
            final(self).price == old(self).price,
            final(self).orders@ == old(self).orders@.push(order),
            final(self).total() == old(self).total() + order.remaining(),
            old(self).wf() ==> final(self).wf(),
    {
        let r = order.remaining_quantity();
        self.total_quantity = self.total_quantity + r;
        proof {
            lemma_sum_push(self.orders@, order);
        }
        self.orders.push_back(order);
    }

    /// Removes the first order with the given id. Returns the removed order if found.
    pub fn remove_order(&mut self, order_id: u128) -> (removed: Option<Order>)
        ensures
            final(self).price == old(self).price,
            ({
                let i = find_id(old(self).orders@, order_id) as int;
                match removed {
                    None => {
                        &&& i == old(self).orders@.len()
                        &&& *final(self) == *old(self)
                    },
                    Some(o) => {
                        &&& i < old(self).orders@.len()
                        &&& o == old(self).orders@[i]
                        &&& final(self).orders@ == old(self).orders@.remove(i)
                        &&& final(self).total() == if old(self).total() >= o.remaining() {
                            old(self).total() - o.remaining()
                        } else {
                            0
                        }
                    },
                }
            }),
            forall|j: int|
                0 <= j < find_id(old(self).orders@, order_id) ==> old(self).orders@[j].id != order_id,
            old(self).wf() ==> final(self).wf(),
    {
        proof {
            lemma_find_id(self.orders@, order_id);
        }
        let mut i: usize = 0;
        while i < self.orders.len()
            invariant
                i <= self.orders@.len(),
                self == old(self),
                forall|j: int| 0 <= j < i ==> self.orders@[j].id != order_id,
            ensures
                i <= self.orders@.len(),
                i < self.orders@.len() ==> self.orders@[i as int].id == order_id,
            decreases self.orders@.len() - i,
        {
            if self.orders[i].id == order_id {
                break;
            }
            i += 1;
        }
        proof {
            let k = find_id(self.orders@, order_id) as int;
            if i < self.orders.len() {
                assert(self.orders@[i as int].id == order_id);
                if k < i {
                    assert(self.orders@[k].id != order_id);
                }
                if i < k {
                    assert(self.orders@[i as int].id != order_id);
                }
            } else {
                if k < i {
                    assert(self.orders@[k].id != order_id);
                }
            }
            assert(i as int == k);
        }
        if i < self.orders.len() {
            let ghost before = self.orders@;
            proof {
                lemma_sum_remove(before, i as int);
            }
            let order = self.orders.remove(i).unwrap();
            self.total_quantity = self.total_quantity.saturating_sub(order.remaining_quantity());
            Some(order)
        } else {
            None
        }
    }

    /// Returns a reference to the front order (oldest, highest priority).
    pub fn front(&self) -> (r: Option<&Order>)
        ensures
            match r {
                Some(o) => self.orders@.len() > 0 && *o == self.orders@[0],
                None => self.orders@.len() == 0,
            },
    {
        if self.orders.len() > 0 {
            Some(&self.orders[0])
        } else {
            None
        }
    }

    /// Returns a mutable reference to the front order: what is written
    /// through it becomes the front of the queue. The recorded total is left
    /// as it was.
    pub fn front_mut(&mut self) -> (r: Option<&mut Order>)
        ensures
            final(self).price == old(self).price,
            final(self).total() == old(self).total(),
            old(self).orders@.len() == 0 ==> r is None && final(self).orders@ == old(self).orders@,
            old(self).orders@.len() > 0 ==> r is Some && *r->0 == old(self).orders@[0]
                && final(self).orders@ == old(self).orders@.update(0, *final(r->0)),
    {
        deque_front_mut(&mut self.orders)
    }

    /// Removes and returns the front order.
    pub fn pop_front(&mut self) -> (r: Option<Order>)
        ensures
            final(self).price == old(self).price,
            match r {
                Some(o) => {
                    &&& old(self).orders@.len() > 0
                    &&& o == old(self).orders@[0]
                    &&& final(self).orders@ == old(self).orders@.drop_first()
                    &&& final(self).total() == if old(self).total() >= o.remaining() {
                        old(self).total() - o.remaining()
                    } else {
                        0
                    }
                },
                None => {
                    &&& old(self).orders@.len() == 0
                    &&& final(self).orders@ == old(self).orders@
                    &&& final(self).total() == old(self).total()
                },
            },
            old(self).wf() ==> final(self).wf(),
    {
        if let Some(order) = self.orders.pop_front() {
            assert(self.orders@ =~= old(self).orders@.drop_first());
            self.total_quantity = self.total_quantity.saturating_sub(order.remaining_quantity());
            Some(order)
        } else {
            None
        }
    }

    /// Lowers the recorded total; for use after the front order's filled
    /// quantity was raised by `amount` outside of this level.
    pub fn reduce_total_quantity(&mut self, amount: u64)
        ensures
            final(self).price == old(self).price,
            final(self).orders@ == old(self).orders@,
            final(self).total() == if old(self).total() >= amount {
                old(self).total() - amount
            } else {
                0
            },
    {
        self.total_quantity = self.total_quantity.saturating_sub(amount);
    }

    /// Returns true if there are no orders at this price level.
    pub fn is_empty(&self) -> (b: bool)
        ensures
            b == (self.orders@.len() == 0),
    {
        self.orders.len() == 0
    }

    /// Returns the number of orders at this price level.
    pub fn order_count(&self) -> (n: usize)
        ensures
            n == self.orders@.len(),
    {
        self.orders.len()
    }

    /// Returns the total quantity available at this price level.
    pub fn total_quantity(&self) -> (q: u64)
        ensures
            q == self.total(),
    {
        self.total_quantity
    }

    /// Matches up to `want` units against the queue in time priority (oldest
    /// first), filling resting orders at time `now`; completely filled orders
    /// leave the queue. Returns the fills, in execution order.
    pub fn match_orders(&mut self, want: u64, now: i128) -> (fills: Vec<Fill>)
        requires
            old(self).wf(),
        ensures
            final(self).wf(),
            final(self).price == old(self).price,
            final(self).orders@ == match_queue(old(self).orders@, old(self).price, want as nat, now).0,
            fills@ == match_queue(old(self).orders@, old(self).price, want as nat, now).1,
    {
        let ghost q0 = self.orders@;
        let ghost price = self.price;
        let mut fills: Vec<Fill> = Vec::new();
        let mut left: u64 = want;
        while left > 0 && self.orders.len() > 0
            invariant
                self.wf(),
                self.price == price,
                match_queue(self.orders@, price, left as nat, now).0 == match_queue(q0, price, want as nat, now).0,
                fills@ + match_queue(self.orders@, price, left as nat, now).1 == match_queue(q0, price, want as nat, now).1,
            decreases self.orders@.len() + left,
        {
            let ghost cur = self.orders@;
            let mut maker = self.orders.pop_front().unwrap();
            assert(cur[0] == maker);
            let rem = maker.remaining_quantity();
            assert(sum_remaining(cur) == rem + sum_remaining(cur.drop_first()));
            if left >= rem {
                self.total_quantity = self.total_quantity - rem;
                let fill = Fill { maker_id: maker.id, price: self.price, quantity: rem, maker_done: true };
                let ghost fills_before = fills@;
                fills.push(fill);
                left = left - rem;
                proof {
                    assert(fills@ == fills_before + seq![fill]);
                    let rest = match_queue(self.orders@, price, left as nat, now);
                    assert(fills_before + (seq![fill] + rest.1) =~= fills@ + rest.1);
                }
            } else {
                maker.fill_at(left, now);
                self.total_quantity = self.total_quantity - left;
                let fill = Fill { maker_id: maker.id, price: self.price, quantity: left, maker_done: false };
                let ghost filled_maker = maker;
                self.orders.push_front(maker);
                fills.push(fill);
                left = 0;
                proof {
                    assert(self.orders@ =~= cur.update(0, filled_maker));
                    assert(self.orders@.drop_first() =~= cur.drop_first());
                }
            }
        }
        fills
    }
}

} // verus!
