//! Properties of the order book as a whole: priority, the spread, where
//! fills come from and what they leave of the makers, that no quantity is
//! lost, that cancelling a freshly rested order undoes it, the depth
//! levels, a user's open orders and the order count.

use vstd::prelude::*;
use crate::book_model::{
    ahead, cancelled_of, depth, lemma_queue_ok_remove, owned_by, snapshot_of, user_orders, crosses, fill_results, has_id, index_of_id, lemma_index_of_id, lemma_queue_ok_drop_first,
    lemma_placed_valid, lemma_rest_index_bounds, lookup, opposite, placed, queue_ok, rest_index, sweep, trade_for, well_placed,
    without_order, BookView,
};
use crate::orderbook::{MatchResult, Order, OrderAccepted, OrderCancelled, Side};

verus! {

/// The quantity an event accounts for: traded units, or units left resting.
pub open spec fn event_qty(e: MatchResult) -> nat {
    match e {
        MatchResult::Trade(t) => t.qty as nat,
        MatchResult::OrderAccepted(a) => a.remaining_qty as nat,
    }
}

/// The quantity all events of a placement account for.
pub open spec fn events_qty(es: Seq<MatchResult>) -> nat
    decreases es.len(),
{
    if es.len() == 0 {
        0
    } else {
        event_qty(es[0]) + events_qty(es.drop_first())
    }
}

/// The units taken by a sequence of fills.
pub open spec fn fill_total(f: Seq<(Order, u64)>) -> nat
    decreases f.len(),
{
    if f.len() == 0 {
        0
    } else {
        f[0].1 as nat + fill_total(f.drop_first())
    }
}

/// The fills of a sweep take the front of the opposite queue, in order: the
/// i-th fill is the i-th resting order, every fill but the last takes all of
/// its order, every fill takes some units, and every filled order crosses
/// the incoming limit. The units taken plus the units left are the units
/// asked for.
#[verifier::spinoff_prover]
pub proof fn lemma_sweep_fills(opp: Seq<Order>, side: Side, price: u64, qty: u64, n: u64)
    requires
        queue_ok(opposite(side), opp, n),
    ensures
        ({
            let f = sweep(opp, side, price, qty).0;
            &&& f.len() <= opp.len()
            &&& forall|i: int|
                #![trigger f[i]]
                0 <= i < f.len() ==> f[i].0 == opp[i] && 0 < f[i].1 <= opp[i].remaining_qty && crosses(
                    side,
                    price,
                    opp[i].price,
                )
            &&& forall|i: int| #![trigger f[i]] 0 <= i < f.len() - 1 ==> f[i].1 == opp[i].remaining_qty
            &&& qty == sweep(opp, side, price, qty).2 + fill_total(f)
        }),
    decreases opp.len(),
{
    let s = sweep(opp, side, price, qty);
    if qty == 0 || opp.len() == 0 || !crosses(side, price, opp[0].price) {
        assert(fill_total(s.0) == 0);
    } else if qty < opp[0].remaining_qty {
        assert(s.0[0] == (opp[0], qty));
        assert(s.0.drop_first() =~= Seq::<(Order, u64)>::empty());
        assert(fill_total(s.0.drop_first()) == 0);
        assert(fill_total(s.0) == qty);
        assert(well_placed(opposite(side), opp[0], n));
    } else {
        let t = opp.drop_first();
        let q2 = (qty - opp[0].remaining_qty) as u64;
        lemma_queue_ok_drop_first(opposite(side), opp, n);
        lemma_sweep_fills(t, side, price, q2, n);
        let r = sweep(t, side, price, q2);
        assert(s.0 == seq![(opp[0], opp[0].remaining_qty)] + r.0);
        assert(s.0.drop_first() =~= r.0);
        assert(well_placed(opposite(side), opp[0], n));
        assert forall|i: int| #![trigger s.0[i]] 0 <= i < s.0.len() implies s.0[i].0 == opp[i] && 0 < s.0[i].1
            <= opp[i].remaining_qty && crosses(side, price, opp[i].price) by {
            if i > 0 {
                assert(s.0[i] == r.0[i - 1] && opp[i] == t[i - 1]);
                assert(r.0[i - 1].0 == t[i - 1]);
            }
        }
        assert forall|i: int| #![trigger s.0[i]] 0 <= i < s.0.len() - 1 implies s.0[i].1 == opp[i].remaining_qty by {
            if i > 0 {
                assert(s.0[i] == r.0[i - 1] && opp[i] == t[i - 1]);
                assert(r.0[i - 1].1 == t[i - 1].remaining_qty);
            }
        }
        assert(fill_total(s.0) == opp[0].remaining_qty + fill_total(r.0));
    }
}

proof fn lemma_events_qty_fills(f: Seq<(Order, u64)>, side: Side, taker: u64, id: u64)
    ensures
        events_qty(fill_results(f, side, taker, id)) == fill_total(f),
    decreases f.len(),
{
    if f.len() > 0 {
        lemma_events_qty_fills(f.drop_first(), side, taker, id);
        assert(fill_results(f, side, taker, id).drop_first() =~= fill_results(f.drop_first(), side, taker, id));
    }
}

proof fn lemma_events_qty_push(es: Seq<MatchResult>, e: MatchResult)
    ensures
        events_qty(es.push(e)) == events_qty(es) + event_qty(e),
    decreases es.len(),
{
    if es.len() > 0 {
        lemma_events_qty_push(es.drop_first(), e);
        assert(es.push(e).drop_first() =~= es.drop_first().push(e));
        assert(es.push(e)[0] == es[0]);
    } else {
        assert(es.push(e).drop_first() =~= Seq::<MatchResult>::empty());
        assert(events_qty(es.push(e).drop_first()) == 0);
        assert(es.push(e)[0] == e);
    }
}

/// Law (price-time priority): in each queue of a valid book an order stands
/// before another exactly when it has the better price, or the same price
/// and arrived earlier.
pub proof fn law_price_time_priority(book: BookView, side: Side, i: int, j: int)
    requires
        book.valid(),
        0 <= i < j < book.queue(side).len(),
    ensures
        ahead(side, book.queue(side)[i], book.queue(side)[j]),
{
    let q = book.queue(side);
    assert(queue_ok(side, q, book.next_order_id));
    assert(q[i] == q[i] && q[j] == q[j]);
}

/// Law (the queues in full): in a valid book the bids stand highest price
/// first and, at one price, in order of arrival (smaller order id first);
/// the asks stand lowest price first and, at one price, smaller order id
/// first. So of two orders at one price the earlier one is filled first.
pub proof fn law_queue_order(book: BookView, i: int, j: int)
    requires
        book.valid(),
    ensures
        0 <= i < j < book.bids.len() ==> book.bids[i].price > book.bids[j].price || (book.bids[i].price
            == book.bids[j].price && book.bids[i].order_id < book.bids[j].order_id),
        0 <= i < j < book.asks.len() ==> book.asks[i].price < book.asks[j].price || (book.asks[i].price
            == book.asks[j].price && book.asks[i].order_id < book.asks[j].order_id),
{
    if 0 <= i < j < book.bids.len() {
        law_price_time_priority(book, Side::Bid, i, j);
    }
    if 0 <= i < j < book.asks.len() {
        law_price_time_priority(book, Side::Ask, i, j);
    }
}

/// Law (the spread): the best bid is the highest bid, the best ask the
/// lowest ask, and the book is never crossed: the best bid is below the
/// best ask.
pub proof fn law_best_prices(book: BookView)
    requires
        book.valid(),
    ensures
        forall|i: int| 0 <= i < book.bids.len() ==> #[trigger] book.bids[i].price <= book.bids[0].price,
        forall|j: int| 0 <= j < book.asks.len() ==> book.asks[0].price <= #[trigger] book.asks[j].price,
        book.bids.len() > 0 && book.asks.len() > 0 ==> book.bids[0].price < book.asks[0].price,
{
    assert forall|i: int| 0 <= i < book.bids.len() implies #[trigger] book.bids[i].price <= book.bids[0].price by {
        if i > 0 {
            assert(ahead(Side::Bid, book.bids[0], book.bids[i]));
        }
    }
    assert forall|j: int| 0 <= j < book.asks.len() implies book.asks[0].price <= #[trigger] book.asks[j].price by {
        if j > 0 {
            assert(ahead(Side::Ask, book.asks[0], book.asks[j]));
        }
    }
}

/// Law (fills come from the front): placing an order trades first with the
/// best resting order of the opposite side, then the next, and so on; each
/// trade is at the resting order's price, which never is worse than the
/// incoming limit, and takes at least one unit; every resting order but the
/// last one traded is used up; and the trade prices only get worse for the
/// taker (rising for a bid, falling for an ask).
pub proof fn law_fills_in_priority_order(book: BookView, user: u64, side: Side, price: u64, qty: u64)
    requires
        book.valid(),
    ensures
        ({
            let opp = book.queue(opposite(side));
            let f = sweep(opp, side, price, qty).0;
            let events = placed(book, user, side, price, qty).1;
            let left = sweep(opp, side, price, qty).2;
            &&& f.len() <= events.len()
            &&& forall|i: int|
                #![trigger events[i]]
                0 <= i < f.len() ==> events[i] == MatchResult::Trade(
                    trade_for(side, user, book.next_order_id, opp[i], f[i].1),
                ) && 0 < f[i].1 <= opp[i].remaining_qty && crosses(side, price, opp[i].price)
            &&& forall|i: int| #![trigger f[i]] 0 <= i < f.len() - 1 ==> f[i].1 == opp[i].remaining_qty
            &&& forall|i: int, j: int|
                0 <= i < j < f.len() ==> (side == Side::Bid ==> #[trigger] opp[i].price <= #[trigger] opp[j].price) && (side
                    == Side::Ask ==> opp[i].price >= opp[j].price)
            &&& forall|i: int|
                #![trigger events[i]]
                0 <= i < f.len() ==> (events[i] matches MatchResult::Trade(t) && t.taker_order_id == book.next_order_id
                    && t.maker_order_id == opp[i].order_id && t.price == opp[i].price && t.qty == f[i].1 && t.qty > 0
                    && (side == Side::Bid ==> t.price <= price) && (side == Side::Ask ==> t.price >= price) && (side
                    == Side::Bid ==> t.buyer == user && t.seller == opp[i].user_id) && (side == Side::Ask ==> t.seller
                    == user && t.buyer == opp[i].user_id))
            &&& forall|i: int|
                #![trigger events[i]]
                0 <= i < events.len() ==> (events[i] matches MatchResult::Trade(t) ==> i < f.len() && t.taker_order_id
                    == book.next_order_id)
            &&& events.len() == f.len() + (if left > 0 { 1int } else { 0int })
            &&& left > 0 ==> events[f.len() as int] == MatchResult::OrderAccepted(
                OrderAccepted { order_id: book.next_order_id, user_id: user, side, price, remaining_qty: left },
            )
        }),
{
    let opp = book.queue(opposite(side));
    assert(queue_ok(opposite(side), opp, book.next_order_id));
    lemma_sweep_fills(opp, side, price, qty, book.next_order_id);
    let f = sweep(opp, side, price, qty).0;
    let events = placed(book, user, side, price, qty).1;
    assert forall|i: int, j: int| 0 <= i < j < f.len() implies (side == Side::Bid ==> #[trigger] opp[i].price
        <= #[trigger] opp[j].price) && (side == Side::Ask ==> opp[i].price >= opp[j].price) by {
        assert(ahead(opposite(side), opp[i], opp[j]));
    }
    let left = sweep(opp, side, price, qty).2;
    let tr = fill_results(f, side, user, book.next_order_id);
    assert forall|i: int| #![trigger events[i]] 0 <= i < events.len() implies (events[i] matches MatchResult::Trade(t)
        ==> i < f.len() && t.taker_order_id == book.next_order_id) by {
        if i < f.len() {
            assert(events[i] == tr[i]);
        }
    }
    assert forall|i: int| #![trigger events[i]] 0 <= i < f.len() implies events[i] == MatchResult::Trade(
        trade_for(side, user, book.next_order_id, opp[i], f[i].1),
    ) && 0 < f[i].1 <= opp[i].remaining_qty && crosses(side, price, opp[i].price) by {
        assert(f[i].0 == opp[i]);
    }
}

/// What a sweep leaves of the opposite queue: the front orders it filled in
/// full are gone, and a last order filled in part stays at the front with
/// the units taken off.
proof fn lemma_sweep_rest(opp: Seq<Order>, side: Side, price: u64, qty: u64)
    ensures
        ({
            let s = sweep(opp, side, price, qty);
            let k = s.0.len() as int;
            &&& k <= opp.len()
            &&& {
                ||| s.1 == opp.skip(k)
                ||| k > 0 && s.0[k - 1].1 < opp[k - 1].remaining_qty && s.1 == opp.skip(k - 1).update(
                    0,
                    Order { remaining_qty: (opp[k - 1].remaining_qty - s.0[k - 1].1) as u64, ..opp[k - 1] },
                )
            }
            &&& s.2 > 0 ==> s.1 == opp.skip(k) && (k == opp.len() || !crosses(side, price, opp[k].price))
        }),
    decreases opp.len(),
{
    let s = sweep(opp, side, price, qty);
    if qty == 0 || opp.len() == 0 || !crosses(side, price, opp[0].price) {
        assert(opp.skip(0) =~= opp);
    } else if qty < opp[0].remaining_qty {
        assert(opp.skip(0) =~= opp);
        assert(s.0[0] == (opp[0], qty));
    } else {
        let t = opp.drop_first();
        let q2 = (qty - opp[0].remaining_qty) as u64;
        lemma_sweep_rest(t, side, price, q2);
        let r = sweep(t, side, price, q2);
        let k2 = r.0.len() as int;
        assert(s.0 == seq![(opp[0], opp[0].remaining_qty)] + r.0);
        assert(s.0.len() == k2 + 1);
        assert(t.skip(k2) =~= opp.skip(k2 + 1));
        if k2 > 0 {
            assert(t.skip(k2 - 1) =~= opp.skip(k2));
            assert(s.0[k2] == r.0[k2 - 1]);
            assert(opp[k2] == t[k2 - 1]);
        }
    }
}

/// Law (makers lose what they traded): after a placement the opposite queue
/// holds what the trades left of it: the makers filled in full are gone, a
/// maker filled in part stays at the front with its remaining quantity less
/// the units it traded, and the orders behind are unchanged. The book
/// stays valid, so in particular never crossed.
pub proof fn law_makers_lose_what_they_traded(book: BookView, user: u64, side: Side, price: u64, qty: u64)
    requires
        book.valid(),
    ensures
        ({
            let opp = book.queue(opposite(side));
            let f = sweep(opp, side, price, qty).0;
            let k = f.len() as int;
            let after = placed(book, user, side, price, qty).0;
            &&& {
                ||| after.queue(opposite(side)) == opp.skip(k)
                ||| k > 0 && f[k - 1].1 < opp[k - 1].remaining_qty && after.queue(opposite(side)) == opp.skip(k - 1).update(
                    0,
                    Order { remaining_qty: (opp[k - 1].remaining_qty - f[k - 1].1) as u64, ..opp[k - 1] },
                )
            }
            &&& price > 0 && qty > 0 && book.next_order_id < u64::MAX ==> after.valid()
            &&& sweep(opp, side, price, qty).2 > 0 ==> after.queue(opposite(side)).len() == 0 || (side == Side::Bid
                ==> after.queue(opposite(side))[0].price > price) && (side == Side::Ask ==> after.queue(
                opposite(side),
            )[0].price < price)
        }),
{
    let opp = book.queue(opposite(side));
    lemma_sweep_rest(opp, side, price, qty);
    if price > 0 && qty > 0 && book.next_order_id < u64::MAX {
        lemma_placed_valid(book, user, side, price, qty);
    }
}

/// Law (no quantity is lost): the units traded by a placement plus the
/// units left resting are exactly the units ordered.
pub proof fn law_quantity_conserved(book: BookView, user: u64, side: Side, price: u64, qty: u64)
    requires
        book.valid(),
    ensures
        events_qty(placed(book, user, side, price, qty).1) == qty,
{
    let opp = book.queue(opposite(side));
    let s = sweep(opp, side, price, qty);
    let id = book.next_order_id;
    assert(queue_ok(opposite(side), opp, id));
    lemma_sweep_fills(opp, side, price, qty, id);
    lemma_events_qty_fills(s.0, side, user, id);
    if s.2 > 0 {
        lemma_events_qty_push(
            fill_results(s.0, side, user, id),
            MatchResult::OrderAccepted(
                OrderAccepted { order_id: id, user_id: user, side, price, remaining_qty: s.2 },
            ),
        );
    }
}

/// Law (cancel undoes a rest): when an order does not cross the book, it
/// rests whole under the next id, and cancelling that id gives back the
/// book as it was, but for the next id, which stays used.
#[verifier::spinoff_prover]
pub proof fn law_cancel_undoes_rest(book: BookView, user: u64, side: Side, price: u64, qty: u64)
    requires
        book.valid(),
        price > 0,
        qty > 0,
        book.next_order_id < u64::MAX,
        book.queue(opposite(side)).len() == 0 || !crosses(side, price, book.queue(opposite(side))[0].price),
    ensures
        ({
            let id = book.next_order_id;
            let after = placed(book, user, side, price, qty).0;
            &&& lookup(after, id) == Some(Order { order_id: id, user_id: user, side, price, remaining_qty: qty })
            &&& without_order(after, id) == BookView { next_order_id: (id + 1) as u64, ..book }
        }),
{
    let id = book.next_order_id;
    let o = Order { order_id: id, user_id: user, side, price, remaining_qty: qty };
    let own = book.queue(side);
    let p = rest_index(own, side, o);
    let after = placed(book, user, side, price, qty).0;
    lemma_placed_valid(book, user, side, price, qty);
    lemma_rest_index_bounds(own, side, o);
    own.insert_ensures(p, o);
    let q2 = own.insert(p, o);
    assert(after.queue(side) == q2);
    assert(q2[p] == o);
    assert(queue_ok(side, q2, (id + 1) as u64));
    lemma_index_of_id(side, q2, (id + 1) as u64, p);
    assert(q2.remove(p) =~= own);
    // the id is not on the other side
    let other = after.queue(opposite(side));
    assert(other == book.queue(opposite(side)));
    assert forall|j: int| 0 <= j < other.len() implies #[trigger] other[j].order_id != id by {
        assert(well_placed(opposite(side), other[j], id));
    }
    match side {
        Side::Bid => {
            assert(has_id(after.bids, id));
            assert(index_of_id(after.bids, id) == p);
        },
        Side::Ask => {
            assert(!has_id(after.bids, id));
            assert(has_id(after.asks, id));
        },
    }
}

/// The quantity resting at `price` in queue `q`.
pub open spec fn qty_at(q: Seq<Order>, price: u64) -> nat
    decreases q.len(),
{
    if q.len() == 0 {
        0
    } else {
        qty_at(q.drop_last(), price) + (if q.last().price == price { q.last().remaining_qty as nat } else { 0 })
    }
}

/// `a` comes strictly before `b` in the level order of `side`: bids from
/// the highest price down, asks from the lowest price up.
pub open spec fn level_before(side: Side, a: u64, b: u64) -> bool {
    match side {
        Side::Bid => a > b,
        Side::Ask => a < b,
    }
}

proof fn lemma_qty_at_absent(q: Seq<Order>, price: u64)
    requires
        forall|i: int| 0 <= i < q.len() ==> (#[trigger] q[i]).price != price,
    ensures
        qty_at(q, price) == 0,
    decreases q.len(),
{
    if q.len() > 0 {
        assert forall|i: int| 0 <= i < q.drop_last().len() implies (#[trigger] q.drop_last()[i]).price != price by {
            assert(q.drop_last()[i] == q[i]);
        }
        lemma_qty_at_absent(q.drop_last(), price);
    }
}

/// The depth of a queue whose prices run in level order (ties allowed) and
/// whose orders all have something left: one level per distinct price, in
/// strict level order, each with the total resting at that price, which is
/// positive; the first and last levels are the prices of the first and last
/// orders, and there are no levels exactly when there are no orders.
proof fn lemma_depth_levels(side: Side, q: Seq<Order>)
    requires
        forall|i: int, j: int| 0 <= i < j < q.len() ==> !level_before(side, #[trigger] q[j].price, #[trigger] q[i].price),
        forall|i: int| 0 <= i < q.len() ==> (#[trigger] q[i]).remaining_qty > 0,
    ensures
        ({
            let d = depth(q);
            &&& d.len() == 0 <==> q.len() == 0
            &&& q.len() > 0 ==> d[0].0 == q[0].price && d.last().0 == q.last().price
            &&& forall|k: int, l: int| 0 <= k < l < d.len() ==> level_before(side, #[trigger] d[k].0, #[trigger] d[l].0)
            &&& forall|k: int| 0 <= k < d.len() ==> #[trigger] d[k].1 == qty_at(q, d[k].0) && d[k].1 > 0
            &&& forall|i: int|
                #![trigger q[i]]
                0 <= i < q.len() ==> exists|k: int| #![trigger d[k]] 0 <= k < d.len() && d[k].0 == q[i].price
        }),
    decreases q.len(),
{
    let d = depth(q);
    if q.len() == 0 {
        return;
    }
    let q2 = q.drop_last();
    let o = q.last();
    assert forall|i: int, j: int| 0 <= i < j < q2.len() implies !level_before(side, #[trigger] q2[j].price, #[trigger] q2[i].price) by {
        assert(q2[i] == q[i] && q2[j] == q[j]);
    }
    assert forall|i: int| 0 <= i < q2.len() implies (#[trigger] q2[i]).remaining_qty > 0 by {
        assert(q2[i] == q[i]);
    }
    lemma_depth_levels(side, q2);
    let d2 = depth(q2);
    assert(q.last() == q[q.len() - 1]);
    assert(q[q.len() - 1].remaining_qty > 0);
    if q2.len() == 0 {
        assert(d == seq![(o.price, o.remaining_qty as nat)]);
        assert(q2 =~= Seq::<Order>::empty());
        assert(qty_at(q2, o.price) == 0);
        assert(q[0] == o);
        assert forall|i: int|
            #![trigger q[i]]
            0 <= i < q.len() implies exists|k: int| #![trigger d[k]] 0 <= k < d.len() && d[k].0 == q[i].price by {
            assert(d[0].0 == q[i].price);
        }
        return;
    }
    assert(q[0] == q2[0]);
    assert(q2.last() == q[q.len() - 2]);
    if d2.last().0 == o.price {
        assert forall|k: int| 0 <= k < d.len() implies #[trigger] d[k].1 == qty_at(q, d[k].0) && d[k].1 > 0 by {
            if k < d.len() - 1 {
                assert(level_before(side, d2[k].0, d2[d2.len() - 1].0));
                assert(d[k] == d2[k]);
            }
        }
        assert forall|i: int|
            #![trigger q[i]]
            0 <= i < q.len() implies exists|k: int| #![trigger d[k]] 0 <= k < d.len() && d[k].0 == q[i].price by {
            if i < q.len() - 1 {
                assert(q2[i] == q[i]);
                let k = choose|k: int| #![trigger d2[k]] 0 <= k < d2.len() && d2[k].0 == q2[i].price;
                assert(d[k].0 == q[i].price);
            } else {
                assert(d[d.len() - 1].0 == q[i].price);
            }
        }
        assert forall|k: int, l: int| 0 <= k < l < d.len() implies level_before(side, #[trigger] d[k].0, #[trigger] d[l].0) by {
            assert(d[k].0 == d2[k].0 && d[l].0 == d2[l].0);
        }
    } else {
        assert(!level_before(side, o.price, q2.last().price));
        assert(level_before(side, d2.last().0, o.price));
        assert forall|i: int| 0 <= i < q2.len() implies (#[trigger] q2[i]).price != o.price by {
            if i < q2.len() - 1 {
                assert(!level_before(side, q[q.len() - 2].price, q[i].price));
            }
        }
        lemma_qty_at_absent(q2, o.price);
        assert forall|k: int, l: int| 0 <= k < l < d.len() implies level_before(side, #[trigger] d[k].0, #[trigger] d[l].0) by {
            if l == d.len() - 1 {
                if k < d2.len() - 1 {
                    assert(level_before(side, d2[k].0, d2[d2.len() - 1].0));
                }
                assert(d[k] == d2[k]);
            } else {
                assert(d[k] == d2[k] && d[l] == d2[l]);
            }
        }
        assert forall|k: int| 0 <= k < d.len() implies #[trigger] d[k].1 == qty_at(q, d[k].0) && d[k].1 > 0 by {
            if k < d.len() - 1 {
                assert(d[k] == d2[k]);
                assert(level_before(side, d2[k].0, o.price)) by {
                    if k < d2.len() - 1 {
                        assert(level_before(side, d2[k].0, d2[d2.len() - 1].0));
                    }
                }
            }
        }
        assert forall|i: int|
            #![trigger q[i]]
            0 <= i < q.len() implies exists|k: int| #![trigger d[k]] 0 <= k < d.len() && d[k].0 == q[i].price by {
            if i < q.len() - 1 {
                assert(q2[i] == q[i]);
                let k = choose|k: int| #![trigger d2[k]] 0 <= k < d2.len() && d2[k].0 == q2[i].price;
                assert(d[k].0 == q[i].price);
            } else {
                assert(d[d.len() - 1].0 == q[i].price);
            }
        }
    }
}

/// Law (the depth of the book): on each side of a valid book the depth has
/// one level per distinct resting price, strictly ordered (bids from the
/// highest price down, asks from the lowest up), each with the total
/// quantity resting at that price, which is positive; the first level is at
/// the best price, and a side has no levels exactly when it has no orders.
pub proof fn law_depth_levels(book: BookView, side: Side)
    requires
        book.valid(),
    ensures
        ({
            let q = book.queue(side);
            let d = depth(q);
            &&& d.len() == 0 <==> q.len() == 0
            &&& q.len() > 0 ==> d[0].0 == q[0].price
            &&& forall|k: int, l: int| 0 <= k < l < d.len() ==> level_before(side, #[trigger] d[k].0, #[trigger] d[l].0)
            &&& forall|k: int| 0 <= k < d.len() ==> #[trigger] d[k].1 == qty_at(q, d[k].0) && d[k].1 > 0
            &&& forall|i: int|
                #![trigger q[i]]
                0 <= i < q.len() ==> exists|k: int| #![trigger d[k]] 0 <= k < d.len() && d[k].0 == q[i].price
        }),
{
    let q = book.queue(side);
    assert(queue_ok(side, q, book.next_order_id));
    assert forall|i: int, j: int| 0 <= i < j < q.len() implies !level_before(side, #[trigger] q[j].price, #[trigger] q[i].price) by {
        assert(ahead(side, q[i], q[j]));
    }
    assert forall|i: int| 0 <= i < q.len() implies (#[trigger] q[i]).remaining_qty > 0 by {
        assert(well_placed(side, q[i], book.next_order_id));
    }
    lemma_depth_levels(side, q);
}

/// The ids of the orders resting on the book: those `lookup` finds.
pub open spec fn resting_ids(book: BookView) -> Set<u64> {
    Set::new(|id: u64| lookup(book, id) is Some)
}

/// The ids of the orders of a sequence, in order.
pub open spec fn ids_of(s: Seq<Order>) -> Seq<u64> {
    s.map_values(|o: Order| o.order_id)
}

/// No id occurs twice in `s`.
pub open spec fn ids_distinct(s: Seq<Order>) -> bool {
    forall|i: int, j: int| 0 <= i < j < s.len() ==> #[trigger] s[i].order_id != #[trigger] s[j].order_id
}

/// Both queues together hold every resting order once.
proof fn lemma_all_orders(book: BookView)
    requires
        book.valid(),
    ensures
        ids_distinct(book.bids + book.asks),
        forall|i: int|
            #![trigger (book.bids + book.asks)[i]]
            0 <= i < (book.bids + book.asks).len() ==> lookup(book, (book.bids + book.asks)[i].order_id) == Some(
                (book.bids + book.asks)[i],
            ),
        forall|id: u64|
            #![trigger lookup(book, id)]
            lookup(book, id) is Some ==> (book.bids + book.asks).contains(lookup(book, id)->0),
{
    let s = book.bids + book.asks;
    let b = book.bids.len();
    let n = book.next_order_id;
    assert forall|i: int, j: int| 0 <= i < j < s.len() implies #[trigger] s[i].order_id != #[trigger] s[j].order_id by {
        if j < b {
            assert(s[i] == book.bids[i] && s[j] == book.bids[j]);
        } else if i < b {
            assert(s[i] == book.bids[i] && s[j] == book.asks[j - b]);
        } else {
            assert(s[i] == book.asks[i - b] && s[j] == book.asks[j - b]);
        }
    }
    assert forall|i: int|
        #![trigger s[i]]
        0 <= i < s.len() implies lookup(book, s[i].order_id) == Some(s[i]) by {
        if i < b {
            assert(s[i] == book.bids[i]);
            lemma_index_of_id(Side::Bid, book.bids, n, i);
        } else {
            assert(s[i] == book.asks[i - b]);
            lemma_index_of_id(Side::Ask, book.asks, n, i - b);
            if has_id(book.bids, s[i].order_id) {
                let k = choose|k: int| 0 <= k < book.bids.len() && book.bids[k].order_id == s[i].order_id;
                assert(book.bids[k].order_id != book.asks[i - b].order_id);
            }
        }
    }
    assert forall|id: u64|
        #![trigger lookup(book, id)]
        lookup(book, id) is Some implies s.contains(lookup(book, id)->0) by {
        if has_id(book.bids, id) {
            let k = index_of_id(book.bids, id);
            assert(s[k] == book.bids[k]);
        } else {
            let k = index_of_id(book.asks, id);
            assert(s[b + k] == book.asks[k]);
        }
    }
}

/// Filtering keeps ids distinct and keeps only elements of the sequence.
proof fn lemma_filter_ids(s: Seq<Order>, p: spec_fn(Order) -> bool)
    requires
        ids_distinct(s),
    ensures
        ids_distinct(s.filter(p)),
        forall|i: int| 0 <= i < s.filter(p).len() ==> s.contains(#[trigger] s.filter(p)[i]),
    decreases s.len(),
{
    reveal_with_fuel(Seq::filter, 1);
    if s.len() > 0 {
        let s2 = s.drop_last();
        assert forall|i: int, j: int| 0 <= i < j < s2.len() implies #[trigger] s2[i].order_id != #[trigger] s2[j].order_id by {
            assert(s2[i] == s[i] && s2[j] == s[j]);
        }
        lemma_filter_ids(s2, p);
        let f2 = s2.filter(p);
        let f = s.filter(p);
        assert forall|i: int| 0 <= i < f2.len() implies s.contains(#[trigger] f2[i]) by {
            let k = choose|k: int| 0 <= k < s2.len() && s2[k] == f2[i];
            assert(s[k] == f2[i]);
        }
        if p(s.last()) {
            assert(f == f2.push(s.last()));
            assert forall|i: int| 0 <= i < f2.len() implies (#[trigger] f2[i]).order_id != s.last().order_id by {
                let k = choose|k: int| 0 <= k < s2.len() && s2[k] == f2[i];
                assert(s[k] == f2[i]);
                assert(s[k].order_id != s[s.len() - 1].order_id);
            }
            assert forall|i: int, j: int| 0 <= i < j < f.len() implies #[trigger] f[i].order_id != #[trigger] f[j].order_id by {
                assert(f[i] == f2[i]);
                if j < f2.len() {
                    assert(f[j] == f2[j]);
                }
            }
            assert forall|i: int| 0 <= i < f.len() implies s.contains(#[trigger] f[i]) by {
                if i < f2.len() {
                    assert(f[i] == f2[i]);
                } else {
                    assert(s[s.len() - 1] == f[i]);
                }
            }
        } else {
            assert(f == f2);
        }
    }
}

/// Law (a user's open orders): `user_orders` lists, with no id twice,
/// exactly the resting orders of the user: each entry belongs to the user,
/// has something left, and is what `lookup` finds under its id; and every
/// resting order of the user is listed.
pub proof fn law_user_orders(book: BookView, user: u64)
    requires
        book.valid(),
    ensures
        ({
            let r = user_orders(book, user);
            &&& forall|i: int, j: int| 0 <= i < j < r.len() ==> #[trigger] r[i].order_id != #[trigger] r[j].order_id
            &&& forall|i: int|
                #![trigger r[i]]
                0 <= i < r.len() ==> r[i].user_id == user && r[i].remaining_qty > 0 && lookup(book, r[i].order_id)
                    == Some(
                    Order {
                        order_id: r[i].order_id,
                        user_id: r[i].user_id,
                        side: r[i].side,
                        price: r[i].price,
                        remaining_qty: r[i].remaining_qty,
                    },
                )
            &&& forall|id: u64|
                #![trigger lookup(book, id)]
                lookup(book, id) is Some && lookup(book, id)->0.user_id == user ==> r.contains(
                    snapshot_of(lookup(book, id)->0),
                )
            &&& forall|id: u64|
                #![trigger lookup(book, id)]
                lookup(book, id) is Some && lookup(book, id)->0.user_id == user ==> exists|k: int|
                    0 <= k < r.len() && #[trigger] r[k].order_id == id
        }),
{
    let s = book.bids + book.asks;
    let p = owned_by(user);
    let f = s.filter(p);
    let r = user_orders(book, user);
    lemma_all_orders(book);
    lemma_filter_ids(s, p);
    broadcast use vstd::seq_lib::group_filter_ensures;
    let b = book.bids.len();
    assert forall|i: int| #![trigger s[i]] 0 <= i < s.len() implies s[i].remaining_qty > 0 by {
        if i < b {
            assert(s[i] == book.bids[i]);
            assert(well_placed(Side::Bid, book.bids[i], book.next_order_id));
        } else {
            assert(s[i] == book.asks[i - b]);
            assert(well_placed(Side::Ask, book.asks[i - b], book.next_order_id));
        }
    }
    assert forall|i: int, j: int| 0 <= i < j < r.len() implies #[trigger] r[i].order_id != #[trigger] r[j].order_id by {
        assert(r[i] == snapshot_of(f[i]) && r[j] == snapshot_of(f[j]));
    }
    assert forall|i: int|
        #![trigger r[i]]
        0 <= i < r.len() implies r[i].user_id == user && r[i].remaining_qty > 0 && lookup(book, r[i].order_id) == Some(
        Order {
            order_id: r[i].order_id,
            user_id: r[i].user_id,
            side: r[i].side,
            price: r[i].price,
            remaining_qty: r[i].remaining_qty,
        },
    ) by {
        assert(r[i] == snapshot_of(f[i]));
        assert(p(f[i]));
        let k = choose|k: int| 0 <= k < s.len() && s[k] == f[i];
        assert(s[k] == f[i]);
    }
    assert forall|id: u64|
        #![trigger lookup(book, id)]
        lookup(book, id) is Some && lookup(book, id)->0.user_id == user implies r.contains(
        snapshot_of(lookup(book, id)->0),
    ) by {
        let o = lookup(book, id)->0;
        let k = choose|k: int| 0 <= k < s.len() && s[k] == o;
        assert(p(s[k]));
        assert(f.contains(s[k]));
        let j = choose|j: int| 0 <= j < f.len() && f[j] == o;
        assert(r[j] == snapshot_of(o));
    }
}

/// Law (the order count): the resting orders are exactly the ids that
/// `lookup` (and so `get_order`) finds, and there are as many as the book's
/// size (what `order_count` returns).
pub proof fn law_order_count(book: BookView)
    requires
        book.valid(),
    ensures
        resting_ids(book).finite(),
        resting_ids(book).len() == book.size(),
{
    let s = book.bids + book.asks;
    lemma_all_orders(book);
    let ids = ids_of(s);
    assert(ids.no_duplicates()) by {
        assert forall|i: int, j: int| 0 <= i < ids.len() && 0 <= j < ids.len() && i != j implies ids[i] != ids[j] by {
            if i < j {
                assert(s[i].order_id != s[j].order_id);
            } else {
                assert(s[j].order_id != s[i].order_id);
            }
        }
    }
    ids.unique_seq_to_set();
    assert forall|id: u64| resting_ids(book).contains(id) <==> ids.to_set().contains(id) by {
        if lookup(book, id) is Some {
            let k = choose|k: int| 0 <= k < s.len() && s[k] == lookup(book, id)->0;
            assert(lookup(book, s[k].order_id) == Some(s[k]));
            assert(ids[k] == id);
        }
        if ids.to_set().contains(id) {
            let k = choose|k: int| 0 <= k < ids.len() && ids[k] == id;
            assert(lookup(book, s[k].order_id) == Some(s[k]));
        }
    }
    assert(resting_ids(book) =~= ids.to_set());
}

/// Law (a cancel reports the order cancelled): the order found under id
/// `order_id` is an order of the book that carries that id, and the event
/// reported for cancelling it names that id and that order's owner, side,
/// price and remaining quantity.
pub proof fn law_cancel_reports_the_order(book: BookView, order_id: u64)
    ensures
        lookup(book, order_id) matches Some(o) ==> {
            &&& o.order_id == order_id
            &&& (exists|i: int| 0 <= i < book.bids.len() && #[trigger] book.bids[i] == o) || (exists|i: int|
                0 <= i < book.asks.len() && #[trigger] book.asks[i] == o)
            &&& cancelled_of(o) == (OrderCancelled {
                order_id,
                user_id: o.user_id,
                side: o.side,
                price: o.price,
                remaining_qty: o.remaining_qty,
            })
        },
{
    if has_id(book.bids, order_id) {
        let i = index_of_id(book.bids, order_id);
        assert(book.bids[i] == book.bids[i]);
    } else if has_id(book.asks, order_id) {
        let i = index_of_id(book.asks, order_id);
        assert(book.asks[i] == book.asks[i]);
    }
}

proof fn lemma_remove_keeps_ids(side: Side, q: Seq<Order>, n: u64, i: int, id: u64)
    requires
        queue_ok(side, q, n),
        0 <= i < q.len(),
    ensures
        has_id(q.remove(i), id) <==> (has_id(q, id) && id != q[i].order_id),
        has_id(q.remove(i), id) ==> q.remove(i)[index_of_id(q.remove(i), id)] == q[index_of_id(q, id)],
{
    let t = q.remove(i);
    q.remove_ensures(i);
    lemma_queue_ok_remove(side, q, n, i);
    if has_id(t, id) {
        let a = index_of_id(t, id);
        let oa = if a < i { a } else { a + 1 };
        assert(t[a] == q[oa]);
        lemma_index_of_id(side, q, n, oa);
        assert(q[oa].order_id != q[i].order_id) by {
            if oa < i {
                assert(q[oa].order_id != q[i].order_id);
            } else {
                assert(q[i].order_id != q[oa].order_id);
            }
        }
    }
    if has_id(q, id) && id != q[i].order_id {
        let b = index_of_id(q, id);
        let tb = if b < i { b } else { b - 1 };
        assert(t[tb] == q[b]);
        assert(0 <= tb < t.len() && t[tb].order_id == id);
    }
}

/// Law (a cancel takes out that order and no other): after cancelling id
/// `order_id` no order carries that id, and every other id finds what it
/// found before.
pub proof fn law_cancel_removes_only_that_order(book: BookView, order_id: u64, other: u64)
    requires
        book.valid(),
    ensures
        lookup(without_order(book, order_id), order_id) is None,
        other != order_id ==> lookup(without_order(book, order_id), other) == lookup(book, other),
{
    let n = book.next_order_id;
    assert(queue_ok(Side::Bid, book.bids, n));
    assert(queue_ok(Side::Ask, book.asks, n));
    if has_id(book.bids, order_id) {
        let i = index_of_id(book.bids, order_id);
        lemma_remove_keeps_ids(Side::Bid, book.bids, n, i, order_id);
        lemma_remove_keeps_ids(Side::Bid, book.bids, n, i, other);
        if has_id(book.asks, order_id) {
            let a = index_of_id(book.asks, order_id);
            assert(book.bids[i].order_id != book.asks[a].order_id);
        }
    } else if has_id(book.asks, order_id) {
        let i = index_of_id(book.asks, order_id);
        lemma_remove_keeps_ids(Side::Ask, book.asks, n, i, order_id);
        lemma_remove_keeps_ids(Side::Ask, book.asks, n, i, other);
    }
}

} // verus!
