//! Price-time-priority limit order book.
//!
//! Each side is a queue kept in priority order: bids highest price first,
//! asks lowest price first, and within one price the earlier order first.
//! An incoming order trades against the front of the opposite queue for as
//! long as it crosses; what is left of it rests in its own queue.

use vstd::prelude::*;
use crate::book_model::{
    ahead, cancelled_of, crosses, depth, depth_fits, fill_results, has_id, index_of_id, lemma_depth_prefix,
    lemma_depth_step, lemma_index_of_id, lemma_placed_size, lemma_placed_valid, lemma_rest_index_at,
    lemma_without_order_valid, lookup, owned_by, placed, to_snapshot, rest_index, snapshot_of, sweep, trade_for, user_orders,
    without_order, BookView,
};

verus! {

/// Which side of the book an order rests on.
#[derive(Debug, Clone, Copy, PartialEq, Eq, Structural)]
pub enum Side {
    Bid,
    Ask,
}

/// A resting order.
#[derive(Debug, Clone, Copy, PartialEq, Eq, Structural)]
pub struct Order {
    pub order_id: u64,
    pub user_id: u64,
    pub side: Side,
    pub price: u64,
    pub remaining_qty: u64,
}

/// A fill event: two orders crossed and `qty` units changed hands.
#[derive(Debug, Clone, Copy, PartialEq, Eq, Structural)]
pub struct Trade {
    pub buyer: u64,
    pub seller: u64,
    pub price: u64,
    pub qty: u64,
    pub taker_order_id: u64,
    pub maker_order_id: u64,
}

/// A resting (unmatched) portion of an incoming order.
#[derive(Debug, Clone, Copy, PartialEq, Eq, Structural)]
pub struct OrderAccepted {
    pub order_id: u64,
    pub user_id: u64,
    pub side: Side,
    pub price: u64,
    pub remaining_qty: u64,
}

/// Returned by `cancel_order` on success.
#[derive(Debug, Clone, Copy, PartialEq, Eq, Structural)]
pub struct OrderCancelled {
    pub order_id: u64,
    pub user_id: u64,
    pub side: Side,
    pub price: u64,
    pub remaining_qty: u64,
}

/// One event of placing an order.
#[derive(Debug, Clone, Copy, PartialEq, Eq, Structural)]
pub enum MatchResult {
    Trade(Trade),
    OrderAccepted(OrderAccepted),
}

/// Why the book refused a request.
#[derive(Debug, Clone, Copy, PartialEq, Eq, Structural)]
pub enum OrderbookError {
    InvalidPrice,
    InvalidQuantity,
    OrderNotFound,
    NotOrderOwner,
}

/// Total quantity resting at one price (used for the get-orderbook reply).
#[derive(Debug, Clone, Copy, PartialEq, Eq, Structural)]
pub struct LevelSnapshot {
    pub price: u64,
    pub qty: u64,
}

/// Snapshot of the book: bids highest price first, asks lowest price first.
pub struct OrderbookSnapshot {
    pub symbol: String,
    pub bids: Vec<LevelSnapshot>,
    pub asks: Vec<LevelSnapshot>,
}

/// One resting order as shown to its owner.
#[derive(Debug, Clone, Copy, PartialEq, Eq, Structural)]
pub struct UserOrderSnapshot {
    pub order_id: u64,
    pub user_id: u64,
    pub side: Side,
    pub price: u64,
    pub remaining_qty: u64,
}

/// The book.
pub struct Orderbook {
    symbol: String,
    next_order_id: u64,
    /// Resting bids, best (highest price, then earliest) first.
    bids: Vec<Order>,
    /// Resting asks, best (lowest price, then earliest) first.
    asks: Vec<Order>,
}

impl View for Orderbook {
    type V = BookView;

    closed spec fn view(&self) -> BookView {
        BookView { symbol: self.symbol@, next_order_id: self.next_order_id, bids: self.bids@, asks: self.asks@ }
    }
}

fn crosses_exec(side: Side, price: u64, resting: u64) -> (r: bool)
    ensures
        r == crosses(side, price, resting),
{
    match side {
        Side::Bid => price >= resting,
        Side::Ask => price <= resting,
    }
}

fn ahead_exec(side: Side, a: Order, b: Order) -> (r: bool)
    ensures
        r == ahead(side, a, b),
{
    match side {
        Side::Bid => a.price > b.price || (a.price == b.price && a.order_id < b.order_id),
        Side::Ask => a.price < b.price || (a.price == b.price && a.order_id < b.order_id),
    }
}

fn make_trade(side: Side, taker: u64, taker_order_id: u64, maker: Order, qty: u64) -> (t: Trade)
    ensures
        t == trade_for(side, taker, taker_order_id, maker, qty),
{
    match side {
        Side::Bid => Trade {
            buyer: taker,
            seller: maker.user_id,
            price: maker.price,
            qty,
            taker_order_id,
            maker_order_id: maker.order_id,
        },
        Side::Ask => Trade {
            buyer: maker.user_id,
            seller: taker,
            price: maker.price,
            qty,
            taker_order_id,
            maker_order_id: maker.order_id,
        },
    }
}

/// Matches an incoming order against the opposite `queue`, appending one
/// trade event per fill to `results`; returns the units left unfilled.
fn sweep_queue(
    queue: &mut Vec<Order>,
    side: Side,
    price: u64,
    qty: u64,
    taker: u64,
    taker_order_id: u64,
    results: &mut Vec<MatchResult>,
) -> (left: u64)
    ensures
        final(queue)@ == sweep(old(queue)@, side, price, qty).1,
        left == sweep(old(queue)@, side, price, qty).2,
        final(results)@ == old(results)@ + fill_results(
            sweep(old(queue)@, side, price, qty).0,
            side,
            taker,
            taker_order_id,
        ),
{
    let ghost q0 = queue@;
    let ghost r0 = results@;
    let ghost mut done: Seq<(Order, u64)> = Seq::empty();
    let mut remaining = qty;
    assert(done + sweep(queue@, side, price, remaining).0 =~= sweep(q0, side, price, qty).0);
    assert(fill_results(done, side, taker, taker_order_id) =~= Seq::<MatchResult>::empty());
    while remaining > 0 && queue.len() > 0 && crosses_exec(side, price, queue[0].price)
        invariant
            sweep(q0, side, price, qty).0 == done + sweep(queue@, side, price, remaining).0,
            sweep(q0, side, price, qty).1 == sweep(queue@, side, price, remaining).1,
            sweep(q0, side, price, qty).2 == sweep(queue@, side, price, remaining).2,
            results@ == r0 + fill_results(done, side, taker, taker_order_id),
        decreases queue.len() + if remaining > 0 { 1int } else { 0int },
    {
        let ghost qb = queue@;
        let maker = queue[0];
        let fill: u64;
        if remaining < maker.remaining_qty {
            fill = remaining;
            queue.set(0, Order { remaining_qty: maker.remaining_qty - remaining, ..maker });
            remaining = 0;
        } else {
            fill = maker.remaining_qty;
            queue.remove(0);
            remaining = remaining - fill;
            assert(queue@ =~= qb.drop_first());
        }
        results.push(MatchResult::Trade(make_trade(side, taker, taker_order_id, maker, fill)));
        proof {
            let ghost old_done = done;
            done = done.push((maker, fill));
            assert(fill_results(done, side, taker, taker_order_id) =~= fill_results(
                old_done,
                side,
                taker,
                taker_order_id,
            ).push(MatchResult::Trade(trade_for(side, taker, taker_order_id, maker, fill))));
            assert(sweep(qb, side, price, (remaining + fill) as u64).0 =~= seq![(maker, fill)] + sweep(
                queue@,
                side,
                price,
                remaining,
            ).0);
            assert(done + sweep(queue@, side, price, remaining).0 =~= old_done + (seq![(maker, fill)]
                + sweep(queue@, side, price, remaining).0));
        }
    }
    remaining
}

/// Puts `order` into `queue` behind every order ahead of it.
fn rest_in_queue(queue: &mut Vec<Order>, side: Side, order: Order)
    ensures
        final(queue)@ == old(queue)@.insert(rest_index(old(queue)@, side, order), order),
{
    let mut i: usize = 0;
    while i < queue.len() && ahead_exec(side, queue[i], order)
        invariant
            0 <= i <= queue.len(),
            forall|j: int| 0 <= j < i ==> ahead(side, #[trigger] queue@[j], order),
        decreases queue.len() - i,
    {
        i = i + 1;
    }
    proof {
        lemma_rest_index_at(queue@, side, order, i as int);
    }
    queue.insert(i, order);
}

impl Orderbook {
    /// The book is in a valid state (and its order count fits a `usize`).
    pub open spec fn wf(&self) -> bool {
        &&& self@.valid()
        &&& self@.size() <= usize::MAX
    }

    /// An empty book for `symbol`; the first order gets id 1.
    pub fn new(symbol: &str) -> (book: Self)
        ensures
            book.wf(),
            book@.symbol == symbol@,
            book@.next_order_id == 1,
            book@.bids == Seq::<Order>::empty(),
            book@.asks == Seq::<Order>::empty(),
    {
        Orderbook { symbol: symbol.to_owned(), next_order_id: 1, bids: Vec::new(), asks: Vec::new() }
    }

    /// Place an order. Returns the fills, in the order they happened, and
    /// then, if some quantity is left, the event of it resting.
    pub fn add_order(&mut self, user_id: u64, side: Side, price: u64, qty: u64) -> (result: Result<
        Vec<MatchResult>,
        OrderbookError,
    >)
        requires
            old(self).wf(),
            price == 0 || qty == 0 || (old(self)@.next_order_id < u64::MAX && old(self)@.size()
                < usize::MAX),
        ensures
            final(self).wf(),
            price == 0 ==> result == Err::<Vec<MatchResult>, OrderbookError>(OrderbookError::InvalidPrice)
                && final(self)@ == old(self)@,
            price != 0 && qty == 0 ==> result == Err::<Vec<MatchResult>, OrderbookError>(
                OrderbookError::InvalidQuantity,
            ) && final(self)@ == old(self)@,
            price != 0 && qty != 0 ==> match result {
                Ok(events) => (final(self)@, events@) == placed(old(self)@, user_id, side, price, qty),
                Err(_) => false,
            },
    {
        if price == 0 {
            return Err(OrderbookError::InvalidPrice);
        }
        if qty == 0 {
            return Err(OrderbookError::InvalidQuantity);
        }
        proof {
            lemma_placed_valid(self@, user_id, side, price, qty);
            lemma_placed_size(self@, user_id, side, price, qty);
        }
        let ghost b0 = self@;
        let order_id = self.next_order_id;
        self.next_order_id = self.next_order_id + 1;
        let mut results: Vec<MatchResult> = Vec::new();
        let remaining = match side {
            Side::Bid => sweep_queue(&mut self.asks, side, price, qty, user_id, order_id, &mut results),
            Side::Ask => sweep_queue(&mut self.bids, side, price, qty, user_id, order_id, &mut results),
        };
        if remaining > 0 {
            let order = Order { order_id, user_id, side, price, remaining_qty: remaining };
            match side {
                Side::Bid => rest_in_queue(&mut self.bids, side, order),
                Side::Ask => rest_in_queue(&mut self.asks, side, order),
            }
            results.push(
                MatchResult::OrderAccepted(
                    OrderAccepted { order_id, user_id, side, price, remaining_qty: remaining },
                ),
            );
        }
        proof {
            let p = placed(b0, user_id, side, price, qty);
            assert(results@ =~= p.1);
            assert(self@ =~= p.0);
        }
        Ok(results)
    }

    /// Cancel the resting order `order_id` on behalf of `user_id`.
    pub fn cancel_order(&mut self, order_id: u64, user_id: u64) -> (result: Result<
        OrderCancelled,
        OrderbookError,
    >)
        requires
            old(self).wf(),
        ensures
            final(self).wf(),
            match lookup(old(self)@, order_id) {
                None => result == Err::<OrderCancelled, OrderbookError>(OrderbookError::OrderNotFound)
                    && final(self)@ == old(self)@,
                Some(o) => if o.user_id != user_id {
                    result == Err::<OrderCancelled, OrderbookError>(OrderbookError::NotOrderOwner)
                        && final(self)@ == old(self)@
                } else {
                    result == Ok::<OrderCancelled, OrderbookError>(cancelled_of(o)) && final(self)@
                        == without_order(old(self)@, order_id)
                },
            },
            result matches Ok(c) ==> c.order_id == order_id && c.user_id == user_id && lookup(old(self)@, order_id) == Some(
                Order { order_id, user_id, side: c.side, price: c.price, remaining_qty: c.remaining_qty },
            ),
    {
        proof {
            lemma_without_order_valid(self@, order_id);
            crate::book_laws::law_cancel_reports_the_order(self@, order_id);
        }
        let ghost b0 = self@;
        match find_in_queue(&self.bids, order_id) {
            Some(i) => {
                proof {
                    lemma_index_of_id(Side::Bid, self@.bids, self@.next_order_id, i as int);
                }
                let o = self.bids[i];
                if o.user_id != user_id {
                    return Err(OrderbookError::NotOrderOwner);
                }
                self.bids.remove(i);
                proof {
                    assert(self@ =~= without_order(b0, order_id));
                }
                Ok(cancelled(o))
            },
            None => match find_in_queue(&self.asks, order_id) {
                Some(i) => {
                    proof {
                        lemma_index_of_id(Side::Ask, self@.asks, self@.next_order_id, i as int);
                    }
                    let o = self.asks[i];
                    if o.user_id != user_id {
                        return Err(OrderbookError::NotOrderOwner);
                    }
                    self.asks.remove(i);
                    proof {
                        assert(self@ =~= without_order(b0, order_id));
                    }
                    Ok(cancelled(o))
                },
                None => Err(OrderbookError::OrderNotFound),
            },
        }
    }

    /// Empty both sides and start order ids again from 1.
    pub fn reset(&mut self)
        requires
            old(self).wf(),
        ensures
            final(self).wf(),
            final(self)@ == (BookView {
                symbol: old(self)@.symbol,
                next_order_id: 1,
                bids: Seq::empty(),
                asks: Seq::empty(),
            }),
    {
        self.bids.clear();
        self.asks.clear();
        self.next_order_id = 1;
        proof {
            assert(self@.bids =~= Seq::<Order>::empty());
            assert(self@.asks =~= Seq::<Order>::empty());
        }
    }

    /// The highest resting bid price.
    pub fn best_bid(&self) -> (r: Option<u64>)
        ensures
            r == if self@.bids.len() > 0 { Some(self@.bids[0].price) } else { None::<u64> },
    {
        if self.bids.len() > 0 {
            Some(self.bids[0].price)
        } else {
            None
        }
    }

    /// The lowest resting ask price.
    pub fn best_ask(&self) -> (r: Option<u64>)
        ensures
            r == if self@.asks.len() > 0 { Some(self@.asks[0].price) } else { None::<u64> },
    {
        if self.asks.len() > 0 {
            Some(self.asks[0].price)
        } else {
            None
        }
    }

    /// How many orders rest on the book.
    pub fn order_count(&self) -> (n: usize)
        requires
            self.wf(),
        ensures
            n == self@.size(),
    {
        self.bids.len() + self.asks.len()
    }

    /// How many distinct bid prices the book holds.
    pub fn bid_levels(&self) -> (n: usize)
        ensures
            n == depth(self@.bids).len(),
    {
        count_levels(&self.bids)
    }

    /// How many distinct ask prices the book holds.
    pub fn ask_levels(&self) -> (n: usize)
        ensures
            n == depth(self@.asks).len(),
    {
        count_levels(&self.asks)
    }

    /// The id the next order placed will get.
    pub fn next_order_id(&self) -> (id: u64)
        ensures
            id == self@.next_order_id,
    {
        self.next_order_id
    }

    /// The resting order with id `order_id`, if any.
    pub fn get_order(&self, order_id: u64) -> (r: Option<&Order>)
        requires
            self.wf(),
        ensures
            match r {
                Some(o) => lookup(self@, order_id) == Some(*o),
                None => lookup(self@, order_id) == None::<Order>,
            },
    {
        match find_in_queue(&self.bids, order_id) {
            Some(i) => {
                proof {
                    lemma_index_of_id(Side::Bid, self@.bids, self@.next_order_id, i as int);
                }
                Some(&self.bids[i])
            },
            None => match find_in_queue(&self.asks, order_id) {
                Some(i) => {
                    proof {
                        lemma_index_of_id(Side::Ask, self@.asks, self@.next_order_id, i as int);
                    }
                    Some(&self.asks[i])
                },
                None => None,
            },
        }
    }

    /// All resting orders belonging to `user_id`, bids then asks, each side
    /// in priority order.
    pub fn get_user_orders(&self, user_id: u64) -> (r: Vec<UserOrderSnapshot>)
        ensures
            r@ == user_orders(self@, user_id),
    {
        let mut out: Vec<UserOrderSnapshot> = Vec::new();
        collect_user_orders(&self.bids, user_id, &mut out);
        collect_user_orders(&self.asks, user_id, &mut out);
        proof {
            let p = owned_by(user_id);
            let f = to_snapshot();
            Seq::filter_distributes_over_add(self@.bids, self@.asks, p);
            assert(self@.bids.filter(p).map_values(f) + self@.asks.filter(p).map_values(f)
                =~= (self@.bids.filter(p) + self@.asks.filter(p)).map_values(f));
        }
        out
    }

    /// Every level total of the book fits in a `u64`, so that `get_state`
    /// can report it.
    pub fn depth_fits(&self) -> (b: bool)
        ensures
            b == (depth_fits(self@.bids) && depth_fits(self@.asks)),
    {
        queue_depth_fits(&self.bids) && queue_depth_fits(&self.asks)
    }

    /// Snapshot of the book for the get-orderbook endpoint: per price, the
    /// total resting quantity; bids highest price first, asks lowest first.
    pub fn get_state(&self) -> (snap: OrderbookSnapshot)
        requires
            depth_fits(self@.bids),
            depth_fits(self@.asks),
        ensures
            snap.symbol@ == self@.symbol,
            levels_match(snap.bids@, depth(self@.bids)),
            levels_match(snap.asks@, depth(self@.asks)),
            snap.bids@.len() == depth(self@.bids).len() && snap.asks@.len() == depth(self@.asks).len(),
            forall|k: int|
                0 <= k < snap.bids@.len() ==> #[trigger] snap.bids@[k].price == depth(self@.bids)[k].0
                    && snap.bids@[k].qty == depth(self@.bids)[k].1,
            forall|k: int|
                0 <= k < snap.asks@.len() ==> #[trigger] snap.asks@[k].price == depth(self@.asks)[k].0
                    && snap.asks@[k].qty == depth(self@.asks)[k].1,
    {
        OrderbookSnapshot {
            symbol: self.symbol.clone(),
            bids: queue_depth(&self.bids),
            asks: queue_depth(&self.asks),
        }
    }
}

/// The reported levels are exactly the depth of the queue.
pub open spec fn levels_match(levels: Seq<LevelSnapshot>, d: Seq<(u64, nat)>) -> bool {
    &&& levels.len() == d.len()
    &&& forall|k: int| 0 <= k < d.len() ==> #[trigger] levels[k].price == d[k].0 && levels[k].qty == d[k].1
}

fn cancelled(o: Order) -> (c: OrderCancelled)
    ensures
        c == cancelled_of(o),
{
    OrderCancelled {
        order_id: o.order_id,
        user_id: o.user_id,
        side: o.side,
        price: o.price,
        remaining_qty: o.remaining_qty,
    }
}

/// The first index of the order with id `id` in `q`, if any.
fn find_in_queue(q: &Vec<Order>, id: u64) -> (r: Option<usize>)
    ensures
        match r {
            Some(i) => i < q@.len() && q@[i as int].order_id == id,
            None => !has_id(q@, id),
        },
{
    let mut i: usize = 0;
    while i < q.len()
        invariant
            0 <= i <= q.len(),
            forall|j: int| 0 <= j < i ==> (#[trigger] q@[j]).order_id != id,
        decreases q.len() - i,
    {
        if q[i].order_id == id {
            return Some(i);
        }
        i = i + 1;
    }
    None
}

/// Appends the snapshots of the orders of `user_id` in `q` to `out`.
fn collect_user_orders(q: &Vec<Order>, user_id: u64, out: &mut Vec<UserOrderSnapshot>)
    ensures
        final(out)@ == old(out)@ + q@.filter(owned_by(user_id)).map_values(to_snapshot()),
{
    let ghost o0 = out@;
    let mut i: usize = 0;
    assert(q@.take(0).filter(owned_by(user_id)) =~= Seq::<Order>::empty()) by {
        reveal_with_fuel(Seq::filter, 1);
    }
    assert(out@ =~= o0 + q@.take(0).filter(owned_by(user_id)).map_values(to_snapshot()));
    while i < q.len()
        invariant
            0 <= i <= q.len(),
            out@ == o0 + q@.take(i as int).filter(owned_by(user_id)).map_values(to_snapshot()),
        decreases q.len() - i,
    {
        let o = q[i];
        proof {
            reveal_with_fuel(Seq::filter, 1);
            assert(q@.take(i + 1).drop_last() =~= q@.take(i as int));
            assert(q@.take(i + 1).last() == o);
            assert(q@.take(i + 1).filter(owned_by(user_id)) == if owned_by(user_id)(o) {
                q@.take(i as int).filter(owned_by(user_id)).push(o)
            } else {
                q@.take(i as int).filter(owned_by(user_id))
            });
        }
        let ghost prev = q@.take(i as int).filter(owned_by(user_id));
        let ghost before = out@;
        if o.user_id == user_id {
            out.push(
                UserOrderSnapshot {
                    order_id: o.order_id,
                    user_id: o.user_id,
                    side: o.side,
                    price: o.price,
                    remaining_qty: o.remaining_qty,
                },
            );
            proof {
                assert(prev.push(o).map_values(to_snapshot()) =~= prev.map_values(to_snapshot()).push(to_snapshot()(o)));
                assert(before == o0 + prev.map_values(to_snapshot()));
                assert(out@ == before.push(snapshot_of(o)));
                assert(out@ =~= o0 + prev.map_values(to_snapshot()).push(to_snapshot()(o)));
            }
        }
        i = i + 1;
    }
    assert(q@.take(i as int) =~= q@);
}

/// The number of distinct prices in `q`.
fn count_levels(q: &Vec<Order>) -> (n: usize)
    ensures
        n == depth(q@).len(),
{
    let mut n: usize = 0;
    let mut i: usize = 0;
    while i < q.len()
        invariant
            0 <= i <= q.len(),
            n == depth(q@.take(i as int)).len(),
            n <= i,
            i > 0 ==> n > 0 && depth(q@.take(i as int)).last().0 == q@[i - 1].price,
        decreases q.len() - i,
    {
        proof {
            lemma_depth_step(q@, i as int);
        }
        if i == 0 || q[i - 1].price != q[i].price {
            n = n + 1;
        }
        i = i + 1;
    }
    assert(q@.take(i as int) =~= q@);
    n
}

/// Whether every level total of `q` fits in a `u64`.
fn queue_depth_fits(q: &Vec<Order>) -> (b: bool)
    ensures
        b == depth_fits(q@),
{
    let mut total: u64 = 0;
    let mut i: usize = 0;
    while i < q.len()
        invariant
            0 <= i <= q.len(),
            i > 0 ==> depth(q@.take(i as int)).len() > 0 && depth(q@.take(i as int)).last().0 == q@[i
                - 1].price && depth(q@.take(i as int)).last().1 == total,
            forall|k: int|
                0 <= k < depth(q@.take(i as int)).len() ==> #[trigger] depth(q@.take(i as int))[k].1
                    <= u64::MAX,
        decreases q.len() - i,
    {
        proof {
            lemma_depth_step(q@, i as int);
        }
        let o = q[i];
        if i > 0 && q[i - 1].price == o.price {
            match total.checked_add(o.remaining_qty) {
                Some(t) => {
                    total = t;
                },
                None => {
                    proof {
                        lemma_depth_prefix(q@, i + 1);
                        let d = depth(q@.take(i + 1));
                        assert(d[d.len() - 1].1 <= depth(q@)[d.len() - 1].1);
                    }
                    return false;
                },
            }
        } else {
            total = o.remaining_qty;
        }
        i = i + 1;
    }
    assert(q@.take(i as int) =~= q@);
    true
}

/// The depth of `q`, one snapshot per price, in queue order.
fn queue_depth(q: &Vec<Order>) -> (levels: Vec<LevelSnapshot>)
    requires
        depth_fits(q@),
    ensures
        levels_match(levels@, depth(q@)),
{
    let mut out: Vec<LevelSnapshot> = Vec::new();
    let mut i: usize = 0;
    while i < q.len()
        invariant
            0 <= i <= q.len(),
            depth_fits(q@),
            levels_match(out@, depth(q@.take(i as int))),
            i > 0 ==> out@.len() > 0 && out@.last().price == q@[i - 1].price,
        decreases q.len() - i,
    {
        proof {
            lemma_depth_step(q@, i as int);
            lemma_depth_prefix(q@, i + 1);
        }
        let o = q[i];
        let ghost d0 = depth(q@.take(i as int));
        let ghost d1 = depth(q@.take(i + 1));
        let ghost out0 = out@;
        if i > 0 && q[i - 1].price == o.price {
            let last = out.len() - 1;
            let lv = out[last];
            proof {
                assert(d1[last as int].1 <= depth(q@)[last as int].1);
            }
            out.set(last, LevelSnapshot { price: lv.price, qty: lv.qty + o.remaining_qty });
        } else {
            out.push(LevelSnapshot { price: o.price, qty: o.remaining_qty });
        }
        proof {
            assert forall|k: int| 0 <= k < d1.len() implies #[trigger] out@[k].price == d1[k].0 && out@[k].qty
                == d1[k].1 by {
                if k < d1.len() - 1 {
                    assert(d1[k] == d0[k]);
                    assert(out@[k] == out0[k]);
                    assert(levels_match(out0, d0));
                    assert(k < d0.len());
                    assert(out0[k].price == d0[k].0);
                } else if d1.len() == d0.len() {
                    assert(levels_match(out0, d0));
                    assert(0 <= k < d0.len());
                    assert(out0[k].price == d0[k].0);
                    assert(out0[k].qty == d0[k].1);
                }
            }
        }
        i = i + 1;
    }
    assert(q@.take(i as int) =~= q@);
    out
}

} // verus!
