//! Mathematical model of the order book: the two priority queues, what a
//! valid book is, and what placing an order does to it.

use vstd::prelude::*;
use crate::orderbook::{MatchResult, Order, OrderAccepted, OrderCancelled, Side, Trade, UserOrderSnapshot};

verus! {

/// The abstract state of an order book: its symbol, the id the next order
/// gets, and each side as a queue in priority order (best first).
pub struct BookView {
    pub symbol: Seq<char>,
    pub next_order_id: u64,
    pub bids: Seq<Order>,
    pub asks: Seq<Order>,
}

/// The side an incoming order of `side` trades against.
pub open spec fn opposite(side: Side) -> Side {
    match side {
        Side::Bid => Side::Ask,
        Side::Ask => Side::Bid,
    }
}

/// Price-time priority on one side: `a` is served before `b`.
/// Bids go best (highest) price first, asks lowest price first; at equal
/// price the earlier order (smaller id) goes first.
pub open spec fn ahead(side: Side, a: Order, b: Order) -> bool {
    match side {
        Side::Bid => a.price > b.price || (a.price == b.price && a.order_id < b.order_id),
        Side::Ask => a.price < b.price || (a.price == b.price && a.order_id < b.order_id),
    }
}

/// True when an incoming order on `side` with limit `price` trades with a
/// resting order of the opposite side priced `resting`.
pub open spec fn crosses(side: Side, price: u64, resting: u64) -> bool {
    match side {
        Side::Bid => price >= resting,
        Side::Ask => price <= resting,
    }
}

/// A resting order as it may stand on `side` of a book whose next id is `next_id`.
pub open spec fn well_placed(side: Side, o: Order, next_id: u64) -> bool {
    &&& o.side == side
    &&& o.price > 0
    &&& o.remaining_qty > 0
    &&& o.order_id < next_id
}

/// One side of a valid book: every order well placed, strictly in priority
/// order, no id twice.
pub open spec fn queue_ok(side: Side, q: Seq<Order>, next_id: u64) -> bool {
    &&& forall|i: int| #![trigger q[i]] 0 <= i < q.len() ==> well_placed(side, q[i], next_id)
    &&& forall|i: int, j: int|
        #![trigger q[i], q[j]]
        0 <= i < j < q.len() ==> ahead(side, q[i], q[j]) && q[i].order_id != q[j].order_id
}

impl BookView {
    /// Both queues well formed, no id on both sides, and the book is not
    /// crossed: every bid is priced below every ask.
    pub open spec fn valid(self) -> bool {
        &&& queue_ok(Side::Bid, self.bids, self.next_order_id)
        &&& queue_ok(Side::Ask, self.asks, self.next_order_id)
        &&& forall|i: int, j: int|
            #![trigger self.bids[i], self.asks[j]]
            0 <= i < self.bids.len() && 0 <= j < self.asks.len() ==> self.bids[i].order_id
                != self.asks[j].order_id && self.bids[i].price < self.asks[j].price
    }

    /// How many orders rest on the book.
    pub open spec fn size(self) -> nat {
        self.bids.len() + self.asks.len()
    }

    /// The queue of `side`.
    pub open spec fn queue(self, side: Side) -> Seq<Order> {
        match side {
            Side::Bid => self.bids,
            Side::Ask => self.asks,
        }
    }
}

/// Two entries for the same order, the first possibly with less left.
pub open spec fn same_slot(a: Order, b: Order) -> bool {
    &&& a.order_id == b.order_id
    &&& a.user_id == b.user_id
    &&& a.side == b.side
    &&& a.price == b.price
    &&& a.remaining_qty <= b.remaining_qty
}

/// Matching an incoming order (`side`, limit `price`, `qty` units) against
/// the opposite queue `opp`, front first, while quantity is left and the
/// front crosses. Returns the fills (each maker as it stood and the units
/// taken from it), what is left of the queue, and the units left unfilled.
pub open spec fn sweep(opp: Seq<Order>, side: Side, price: u64, qty: u64) -> (Seq<(Order, u64)>, Seq<Order>, u64)
    decreases opp.len(),
{
    if qty == 0 || opp.len() == 0 || !crosses(side, price, opp[0].price) {
        (Seq::empty(), opp, qty)
    } else if qty < opp[0].remaining_qty {
        (
            seq![(opp[0], qty)],
            opp.update(0, Order { remaining_qty: (opp[0].remaining_qty - qty) as u64, ..opp[0] }),
            0,
        )
    } else {
        let rest = sweep(opp.drop_first(), side, price, (qty - opp[0].remaining_qty) as u64);
        (seq![(opp[0], opp[0].remaining_qty)] + rest.0, rest.1, rest.2)
    }
}

/// The trade recorded when the taker (`taker`, order `taker_order_id`, on
/// `side`) takes `qty` units from `maker`, at the maker's price.
pub open spec fn trade_for(side: Side, taker: u64, taker_order_id: u64, maker: Order, qty: u64) -> Trade {
    match side {
        Side::Bid => Trade {
            buyer: taker,
            seller: maker.user_id,
            price: maker.price,
            qty,
            taker_order_id,
            maker_order_id: maker.order_id,
        },
        Side::Ask => Trade {
            buyer: maker.user_id,
            seller: taker,
            price: maker.price,
            qty,
            taker_order_id,
            maker_order_id: maker.order_id,
        },
    }
}

/// The trade events of a sequence of fills, in order.
pub open spec fn fill_results(fills: Seq<(Order, u64)>, side: Side, taker: u64, taker_order_id: u64) -> Seq<MatchResult> {
    Seq::new(
        fills.len(),
        |i: int| MatchResult::Trade(trade_for(side, taker, taker_order_id, fills[i].0, fills[i].1)),
    )
}

/// Where an order that rests joins its queue: after every order ahead of it.
pub open spec fn rest_index(q: Seq<Order>, side: Side, o: Order) -> int
    decreases q.len(),
{
    if q.len() == 0 {
        0
    } else if ahead(side, q[0], o) {
        1 + rest_index(q.drop_first(), side, o)
    } else {
        0
    }
}

/// The new book and the events of placing a valid order (`price` > 0,
/// `qty` > 0) of `user` on `side`: the order takes the next id, trades
/// against the opposite queue in priority order, and whatever is left rests
/// in its own queue by priority.
pub open spec fn placed(book: BookView, user: u64, side: Side, price: u64, qty: u64) -> (BookView, Seq<MatchResult>) {
    let id = book.next_order_id;
    let s = sweep(book.queue(opposite(side)), side, price, qty);
    let left = s.2;
    let o = Order { order_id: id, user_id: user, side, price, remaining_qty: left };
    let own = book.queue(side);
    let own2 = if left > 0 { own.insert(rest_index(own, side, o), o) } else { own };
    let trades = fill_results(s.0, side, user, id);
    let events = if left > 0 {
        trades.push(MatchResult::OrderAccepted(OrderAccepted { order_id: id, user_id: user, side, price, remaining_qty: left }))
    } else {
        trades
    };
    let next = match side {
        Side::Bid => BookView { next_order_id: (id + 1) as u64, bids: own2, asks: s.1, ..book },
        Side::Ask => BookView { next_order_id: (id + 1) as u64, bids: s.1, asks: own2, ..book },
    };
    (next, events)
}

/// Some order in `q` has id `id`.
pub open spec fn has_id(q: Seq<Order>, id: u64) -> bool {
    exists|i: int| 0 <= i < q.len() && q[i].order_id == id
}

/// The index of the order with id `id` in `q` (meaningful when `has_id`).
pub open spec fn index_of_id(q: Seq<Order>, id: u64) -> int {
    choose|i: int| 0 <= i < q.len() && q[i].order_id == id
}

/// The resting order with id `id`, on either side.
pub open spec fn lookup(book: BookView, id: u64) -> Option<Order> {
    if has_id(book.bids, id) {
        Some(book.bids[index_of_id(book.bids, id)])
    } else if has_id(book.asks, id) {
        Some(book.asks[index_of_id(book.asks, id)])
    } else {
        None
    }
}

/// The book with the resting order `id` taken out of its queue.
pub open spec fn without_order(book: BookView, id: u64) -> BookView {
    if has_id(book.bids, id) {
        BookView { bids: book.bids.remove(index_of_id(book.bids, id)), ..book }
    } else if has_id(book.asks, id) {
        BookView { asks: book.asks.remove(index_of_id(book.asks, id)), ..book }
    } else {
        book
    }
}

/// The event reported when `o` is cancelled.
pub open spec fn cancelled_of(o: Order) -> OrderCancelled {
    OrderCancelled {
        order_id: o.order_id,
        user_id: o.user_id,
        side: o.side,
        price: o.price,
        remaining_qty: o.remaining_qty,
    }
}

/// What a user is shown of one of their resting orders.
pub open spec fn snapshot_of(o: Order) -> UserOrderSnapshot {
    UserOrderSnapshot {
        order_id: o.order_id,
        user_id: o.user_id,
        side: o.side,
        price: o.price,
        remaining_qty: o.remaining_qty,
    }
}

/// Whether an order belongs to `user`.
pub open spec fn owned_by(user: u64) -> spec_fn(Order) -> bool {
    |o: Order| o.user_id == user
}

/// `snapshot_of` as a function value.
pub open spec fn to_snapshot() -> spec_fn(Order) -> UserOrderSnapshot {
    |o: Order| snapshot_of(o)
}

/// The resting orders of `user`: bids in priority order, then asks in
/// priority order.
pub open spec fn user_orders(book: BookView, user: u64) -> Seq<UserOrderSnapshot> {
    (book.bids + book.asks).filter(owned_by(user)).map_values(to_snapshot())
}

/// The depth of one queue: for each price, in queue order, the price and
/// the total quantity resting at it.
pub open spec fn depth(q: Seq<Order>) -> Seq<(u64, nat)>
    decreases q.len(),
{
    if q.len() == 0 {
        Seq::empty()
    } else {
        let d = depth(q.drop_last());
        let o = q.last();
        if d.len() > 0 && d.last().0 == o.price {
            d.update(d.len() - 1, (o.price, d.last().1 + o.remaining_qty as nat))
        } else {
            d.push((o.price, o.remaining_qty as nat))
        }
    }
}

/// Every level total of the queue fits in a `u64`.
pub open spec fn depth_fits(q: Seq<Order>) -> bool {
    forall|k: int| 0 <= k < depth(q).len() ==> #[trigger] depth(q)[k].1 <= u64::MAX
}

// ── Lemmas ─────────────────────────────────────────────────────────────────

pub proof fn lemma_queue_ok_drop_first(side: Side, q: Seq<Order>, n: u64)
    requires
        queue_ok(side, q, n),
        q.len() > 0,
    ensures
        queue_ok(side, q.drop_first(), n),
{
    let t = q.drop_first();
    assert forall|i: int| #![trigger t[i]] 0 <= i < t.len() implies well_placed(side, t[i], n) by {
        assert(t[i] == q[i + 1]);
    }
    assert forall|i: int, j: int| #![trigger t[i], t[j]] 0 <= i < j < t.len() implies ahead(side, t[i], t[j])
        && t[i].order_id != t[j].order_id by {
        assert(t[i] == q[i + 1]);
        assert(t[j] == q[j + 1]);
    }
}

/// A queue made of the last entries of a valid queue, each possibly with
/// less left but some left, is valid.
pub proof fn lemma_suffix_queue_ok(side: Side, q: Seq<Order>, r: Seq<Order>, n: u64)
    requires
        queue_ok(side, q, n),
        r.len() <= q.len(),
        forall|i: int|
            #![trigger r[i]]
            0 <= i < r.len() ==> same_slot(r[i], q[i + q.len() - r.len()]) && r[i].remaining_qty > 0,
    ensures
        queue_ok(side, r, n),
{
    let d = q.len() - r.len();
    assert forall|i: int| #![trigger r[i]] 0 <= i < r.len() implies well_placed(side, r[i], n) by {
        assert(same_slot(r[i], q[i + d]));
    }
    assert forall|i: int, j: int| #![trigger r[i], r[j]] 0 <= i < j < r.len() implies ahead(side, r[i], r[j])
        && r[i].order_id != r[j].order_id by {
        assert(same_slot(r[i], q[i + d]));
        assert(same_slot(r[j], q[j + d]));
    }
}

/// What matching leaves of the opposite queue, and when it stops.
#[verifier::spinoff_prover]
pub proof fn lemma_sweep(opp: Seq<Order>, side: Side, price: u64, qty: u64, n: u64)
    requires
        queue_ok(opposite(side), opp, n),
    ensures
        ({
            let s = sweep(opp, side, price, qty);
            let r = s.1;
            &&& s.2 <= qty
            &&& r.len() <= opp.len()
            &&& forall|i: int|
                #![trigger r[i]]
                0 <= i < r.len() ==> same_slot(r[i], opp[i + opp.len() - r.len()]) && r[i].remaining_qty > 0
            &&& queue_ok(opposite(side), r, n)
            &&& s.2 > 0 ==> (r.len() == 0 || !crosses(side, price, r[0].price))
        }),
    decreases opp.len(),
{
    let s = sweep(opp, side, price, qty);
    if qty == 0 || opp.len() == 0 || !crosses(side, price, opp[0].price) {
        assert forall|i: int| #![trigger s.1[i]] 0 <= i < s.1.len() implies same_slot(s.1[i], opp[i + opp.len() - s.1.len()])
            && s.1[i].remaining_qty > 0 by {
            assert(well_placed(opposite(side), opp[i], n));
        }
    } else if qty < opp[0].remaining_qty {
        let r = s.1;
        assert forall|i: int| #![trigger r[i]] 0 <= i < r.len() implies same_slot(r[i], opp[i + opp.len() - r.len()])
            && r[i].remaining_qty > 0 by {
            assert(well_placed(opposite(side), opp[i], n));
        }
        lemma_suffix_queue_ok(opposite(side), opp, r, n);
    } else {
        let t = opp.drop_first();
        lemma_queue_ok_drop_first(opposite(side), opp, n);
        lemma_sweep(t, side, price, (qty - opp[0].remaining_qty) as u64, n);
        let r = s.1;
        assert forall|i: int| #![trigger r[i]] 0 <= i < r.len() implies same_slot(r[i], opp[i + opp.len() - r.len()])
            && r[i].remaining_qty > 0 by {
            assert(same_slot(r[i], t[i + t.len() - r.len()]));
            assert(t[i + t.len() - r.len()] == opp[i + opp.len() - r.len()]);
        }
    }
}

/// `rest_index` is the first position whose order is not ahead of `o`.
pub proof fn lemma_rest_index_at(q: Seq<Order>, side: Side, o: Order, i: int)
    requires
        0 <= i <= q.len(),
        forall|j: int| 0 <= j < i ==> ahead(side, #[trigger] q[j], o),
        i < q.len() ==> !ahead(side, q[i], o),
    ensures
        rest_index(q, side, o) == i,
    decreases i,
{
    if i > 0 {
        let t = q.drop_first();
        assert(ahead(side, q[0], o));
        assert forall|j: int| 0 <= j < i - 1 implies ahead(side, #[trigger] t[j], o) by {
            assert(t[j] == q[j + 1]);
        }
        if i - 1 < t.len() {
            assert(t[i - 1] == q[i]);
        }
        lemma_rest_index_at(t, side, o, i - 1);
    }
}

/// `rest_index` lies within the queue, every order before it is ahead of
/// `o`, and the one at it (if any) is not.
pub proof fn lemma_rest_index_bounds(q: Seq<Order>, side: Side, o: Order)
    ensures
        0 <= rest_index(q, side, o) <= q.len(),
        forall|j: int| 0 <= j < rest_index(q, side, o) ==> ahead(side, #[trigger] q[j], o),
        rest_index(q, side, o) < q.len() ==> !ahead(side, q[rest_index(q, side, o)], o),
    decreases q.len(),
{
    if q.len() > 0 && ahead(side, q[0], o) {
        let t = q.drop_first();
        lemma_rest_index_bounds(t, side, o);
        let p = rest_index(q, side, o);
        assert forall|j: int| 0 <= j < p implies ahead(side, #[trigger] q[j], o) by {
            if j > 0 {
                assert(q[j] == t[j - 1]);
            }
        }
        if p < q.len() {
            assert(q[p] == t[p - 1]);
        }
    }
}

/// Resting a new order (whose id is the book's next id) by priority keeps
/// its queue valid, with the next id one higher.
#[verifier::spinoff_prover]
pub proof fn lemma_rest_queue_ok(side: Side, q: Seq<Order>, o: Order, n: u64)
    requires
        queue_ok(side, q, n),
        o.order_id == n,
        n < u64::MAX,
        o.side == side,
        o.price > 0,
        o.remaining_qty > 0,
    ensures
        queue_ok(side, q.insert(rest_index(q, side, o), o), (n + 1) as u64),
{
    let p = rest_index(q, side, o);
    lemma_rest_index_bounds(q, side, o);
    let t = q.insert(p, o);
    q.insert_ensures(p, o);
    let m = (n + 1) as u64;
    assert forall|i: int| #![trigger t[i]] 0 <= i < t.len() implies well_placed(side, t[i], m) by {
        if i < p {
            assert(t[i] == q[i]);
        } else if i > p {
            assert(t[i] == q[i - 1]);
        }
    }
    if p < q.len() {
        assert(well_placed(side, q[p], n));
        assert(ahead(side, o, q[p]));
    }
    assert forall|i: int, j: int| #![trigger t[i], t[j]] 0 <= i < j < t.len() implies ahead(side, t[i], t[j])
        && t[i].order_id != t[j].order_id by {
        if j < p {
            assert(t[i] == q[i] && t[j] == q[j]);
        } else if j == p {
            assert(t[i] == q[i]);
            assert(well_placed(side, q[i], n));
        } else if i < p {
            assert(t[i] == q[i] && t[j] == q[j - 1]);
        } else if i == p {
            assert(t[j] == q[j - 1]);
            assert(well_placed(side, q[j - 1], n));
            if j - 1 > p {
                assert(ahead(side, q[p], q[j - 1]));
            }
        } else {
            assert(t[i] == q[i - 1] && t[j] == q[j - 1]);
        }
    }
}

/// Raising the next id keeps a queue valid.
pub proof fn lemma_queue_ok_next(side: Side, q: Seq<Order>, n: u64, m: u64)
    requires
        queue_ok(side, q, n),
        n <= m,
    ensures
        queue_ok(side, q, m),
{
    assert forall|i: int| #![trigger q[i]] 0 <= i < q.len() implies well_placed(side, q[i], m) by {
        assert(well_placed(side, q[i], n));
    }
}

/// Placing an order keeps the book valid.
#[verifier::rlimit(50)]
#[verifier::spinoff_prover]
pub proof fn lemma_placed_valid(book: BookView, user: u64, side: Side, price: u64, qty: u64)
    requires
        book.valid(),
        price > 0,
        qty > 0,
        book.next_order_id < u64::MAX,
    ensures
        placed(book, user, side, price, qty).0.valid(),
{
    let n = book.next_order_id;
    let m = (n + 1) as u64;
    let opp = book.queue(opposite(side));
    let own = book.queue(side);
    let s = sweep(opp, side, price, qty);
    lemma_sweep(opp, side, price, qty, n);
    let r = s.1;
    let left = s.2;
    let o = Order { order_id: n, user_id: user, side, price, remaining_qty: left };
    let own2 = if left > 0 { own.insert(rest_index(own, side, o), o) } else { own };
    let nb = placed(book, user, side, price, qty).0;
    lemma_queue_ok_next(opposite(side), r, n, m);
    if left > 0 {
        lemma_rest_queue_ok(side, own, o, n);
        lemma_rest_index_bounds(own, side, o);
        own.insert_ensures(rest_index(own, side, o), o);
    } else {
        lemma_queue_ok_next(side, own, n, m);
    }
    assert(queue_ok(side, own2, m));
    let d = opp.len() - r.len();
    let p = rest_index(own, side, o);
    // every order left on the opposite side is one that stood there
    assert forall|j: int| 0 <= j < r.len() implies #[trigger] same_slot(r[j], opp[j + d]) by {}
    // the order that rests does not cross what is left opposite
    assert forall|j: int| #![trigger r[j]] 0 <= j < r.len() && left > 0 implies !crosses(side, price, r[j].price) by {
        if j > 0 {
            assert(ahead(opposite(side), r[0], r[j]));
        }
    }
    match side {
        Side::Bid => {
            assert(nb.bids == own2 && nb.asks == r);
            assert forall|i: int, j: int|
                #![trigger nb.bids[i], nb.asks[j]]
                0 <= i < nb.bids.len() && 0 <= j < nb.asks.len() implies nb.bids[i].order_id
                    != nb.asks[j].order_id && nb.bids[i].price < nb.asks[j].price by {
                assert(same_slot(r[j], opp[j + d]));
                assert(well_placed(Side::Ask, opp[j + d], n));
                if left > 0 {
                    if i < p {
                        assert(nb.bids[i] == own[i]);
                    } else if i > p {
                        assert(nb.bids[i] == own[i - 1]);
                    } else {
                        assert(nb.bids[i] == o);
                    }
                }
            }
        },
        Side::Ask => {
            assert(nb.asks == own2 && nb.bids == r);
            assert forall|i: int, j: int|
                #![trigger nb.bids[i], nb.asks[j]]
                0 <= i < nb.bids.len() && 0 <= j < nb.asks.len() implies nb.bids[i].order_id
                    != nb.asks[j].order_id && nb.bids[i].price < nb.asks[j].price by {
                assert(same_slot(r[i], opp[i + d]));
                assert(well_placed(Side::Bid, opp[i + d], n));
                if left > 0 {
                    if j < p {
                        assert(nb.asks[j] == own[j]);
                    } else if j > p {
                        assert(nb.asks[j] == own[j - 1]);
                    } else {
                        assert(nb.asks[j] == o);
                    }
                }
            }
        },
    }
}

/// In a valid queue the order with a given id sits at one index only.
pub proof fn lemma_index_of_id(side: Side, q: Seq<Order>, n: u64, i: int)
    requires
        queue_ok(side, q, n),
        0 <= i < q.len(),
    ensures
        has_id(q, q[i].order_id),
        index_of_id(q, q[i].order_id) == i,
{
    let id = q[i].order_id;
    assert(0 <= i < q.len() && q[i].order_id == id);
    let k = index_of_id(q, id);
    if k < i {
        assert(q[k].order_id != q[i].order_id);
    } else if k > i {
        assert(q[i].order_id != q[k].order_id);
    }
}

/// Taking one order out keeps a queue valid.
pub proof fn lemma_queue_ok_remove(side: Side, q: Seq<Order>, n: u64, i: int)
    requires
        queue_ok(side, q, n),
        0 <= i < q.len(),
    ensures
        queue_ok(side, q.remove(i), n),
{
    let t = q.remove(i);
    q.remove_ensures(i);
    assert forall|a: int| #![trigger t[a]] 0 <= a < t.len() implies well_placed(side, t[a], n) by {
        if a < i {
            assert(t[a] == q[a]);
        } else {
            assert(t[a] == q[a + 1]);
        }
    }
    assert forall|a: int, b: int| #![trigger t[a], t[b]] 0 <= a < b < t.len() implies ahead(side, t[a], t[b])
        && t[a].order_id != t[b].order_id by {
        let oa = if a < i { a } else { a + 1 };
        let ob = if b < i { b } else { b + 1 };
        assert(t[a] == q[oa]);
        assert(t[b] == q[ob]);
    }
}

/// Cancelling keeps the book valid.
#[verifier::spinoff_prover]
pub proof fn lemma_without_order_valid(book: BookView, id: u64)
    requires
        book.valid(),
    ensures
        without_order(book, id).valid(),
        without_order(book, id).size() <= book.size(),
{
    let nb = without_order(book, id);
    if has_id(book.bids, id) {
        let i = index_of_id(book.bids, id);
        lemma_queue_ok_remove(Side::Bid, book.bids, book.next_order_id, i);
        book.bids.remove_ensures(i);
        assert forall|a: int, b: int|
            #![trigger nb.bids[a], nb.asks[b]]
            0 <= a < nb.bids.len() && 0 <= b < nb.asks.len() implies nb.bids[a].order_id
                != nb.asks[b].order_id && nb.bids[a].price < nb.asks[b].price by {
            if a < i {
                assert(nb.bids[a] == book.bids[a]);
            } else {
                assert(nb.bids[a] == book.bids[a + 1]);
            }
        }
    } else if has_id(book.asks, id) {
        let i = index_of_id(book.asks, id);
        lemma_queue_ok_remove(Side::Ask, book.asks, book.next_order_id, i);
        book.asks.remove_ensures(i);
        assert forall|a: int, b: int|
            #![trigger nb.bids[a], nb.asks[b]]
            0 <= a < nb.bids.len() && 0 <= b < nb.asks.len() implies nb.bids[a].order_id
                != nb.asks[b].order_id && nb.bids[a].price < nb.asks[b].price by {
            if b < i {
                assert(nb.asks[b] == book.asks[b]);
            } else {
                assert(nb.asks[b] == book.asks[b + 1]);
            }
        }
    }
}

/// Placing an order adds at most one resting order.
pub proof fn lemma_placed_size(book: BookView, user: u64, side: Side, price: u64, qty: u64)
    requires
        book.valid(),
    ensures
        placed(book, user, side, price, qty).0.size() <= book.size() + 1,
{
    let s = sweep(book.queue(opposite(side)), side, price, qty);
    lemma_sweep(book.queue(opposite(side)), side, price, qty, book.next_order_id);
    let o = Order { order_id: book.next_order_id, user_id: user, side, price, remaining_qty: s.2 };
    let own = book.queue(side);
    lemma_rest_index_bounds(own, side, o);
    own.insert_ensures(rest_index(own, side, o), o);
}

/// One more order of the queue grows the depth at its end: the levels
/// before stay, the last may only grow, and it stands at the order's price.
pub proof fn lemma_depth_step(q: Seq<Order>, i: int)
    requires
        0 <= i < q.len(),
    ensures
        ({
            let a = depth(q.take(i));
            let b = depth(q.take(i + 1));
            &&& a.len() <= b.len() <= a.len() + 1
            &&& b.len() > 0
            &&& b.last().0 == q[i].price
            &&& forall|k: int| 0 <= k < a.len() ==> #[trigger] b[k].0 == a[k].0 && a[k].1 <= b[k].1
            &&& forall|k: int| 0 <= k < b.len() - 1 ==> #[trigger] b[k] == a[k]
            &&& (a.len() > 0 && a.last().0 == q[i].price) ==> (b.len() == a.len() && b.last().1 == a.last().1
                + q[i].remaining_qty)
            &&& !(a.len() > 0 && a.last().0 == q[i].price) ==> (b.len() == a.len() + 1 && b.last().1
                == q[i].remaining_qty)
        }),
{
    assert(q.take(i + 1).drop_last() =~= q.take(i));
    assert(q.take(i + 1).last() == q[i]);
}

/// The depth of a prefix of a queue is bounded, level by level, by the depth
/// of the whole queue.
pub proof fn lemma_depth_prefix(q: Seq<Order>, i: int)
    requires
        0 <= i <= q.len(),
    ensures
        depth(q.take(i)).len() <= depth(q).len(),
        forall|k: int|
            0 <= k < depth(q.take(i)).len() ==> #[trigger] depth(q.take(i))[k].1 <= depth(q)[k].1
                && depth(q.take(i))[k].0 == depth(q)[k].0,
    decreases q.len() - i,
{
    if i == q.len() {
        assert(q.take(i) =~= q);
    } else {
        lemma_depth_step(q, i);
        lemma_depth_prefix(q, i + 1);
        let a = depth(q.take(i));
        let b = depth(q.take(i + 1));
        assert forall|k: int| 0 <= k < a.len() implies #[trigger] a[k].1 <= depth(q)[k].1 && a[k].0 == depth(
            q,
        )[k].0 by {
            assert(b[k].0 == a[k].0 && a[k].1 <= b[k].1);
            assert(b[k].1 <= depth(q)[k].1 && b[k].0 == depth(q)[k].0);
        }
    }
}

} // verus!
