//! The lock-first rule as a theorem: every user's locked funds are exactly
//! what their resting orders hold (a bid `price * remaining_qty` USD, an ask
//! `remaining_qty` SOL). Placing or cancelling an order keeps it so, and
//! never takes more from `locked` than is there. Besides, an order request
//! creates no funds: fills only move USD and SOL between buyer and seller.

use vstd::prelude::*;
use crate::book_laws::{fill_total, lemma_sweep_fills};
use crate::book_model::{
    crosses, fill_results, has_id, index_of_id, lemma_placed_valid, lemma_queue_ok_drop_first,
    lemma_rest_index_bounds, lemma_without_order_valid, lookup, opposite, placed, queue_ok, rest_index, sweep,
    trade_for, well_placed, without_order, BookView,
};
use crate::engine::{
    ask_word, bid_limit, bid_word, book_and_settle, cancel_spec, fill_run, place_spec, price_improvement, release_run,
    settle, settle_events_run, settle_run, CancelOutcome, LedgerFault, OrderOutcome,
};
use crate::ledger::Balance;
use crate::orderbook::{MatchResult, Order, OrderAccepted, Side, Trade};
use crate::state::{asset_of, assets_of, sol_of, sol_symbol, usd_of, with_asset, with_sol, with_usd, EngineView};

verus! {

/// What a resting order keeps locked: a bid its price times its remaining
/// quantity in USD, an ask its remaining quantity in SOL.
pub open spec fn order_weight(o: Order) -> int {
    match o.side {
        Side::Bid => o.price * o.remaining_qty,
        Side::Ask => o.remaining_qty as int,
    }
}

/// What the orders of `user` in queue `q` keep locked.
pub open spec fn locked_for(q: Seq<Order>, user: u64) -> int
    decreases q.len(),
{
    if q.len() == 0 {
        0
    } else {
        (if q[0].user_id == user { order_weight(q[0]) } else { 0 }) + locked_for(q.drop_first(), user)
    }
}

/// The USD that the fills among `es` take from `user`'s locked funds: the
/// price paid, plus, for a bid taker with limit `limit`, the part of its lock
/// above the fill price that goes back to available.
pub open spec fn usd_debit(es: Seq<MatchResult>, user: u64, limit: Option<u64>) -> int
    decreases es.len(),
{
    if es.len() == 0 {
        0
    } else {
        (match es[0] {
            MatchResult::Trade(t) => if t.buyer == user { t.price * t.qty + price_improvement(t, limit) } else { 0 },
            MatchResult::OrderAccepted(_) => 0,
        }) + usd_debit(es.drop_first(), user, limit)
    }
}

/// The SOL that the fills among `es` take from `user`'s locked funds.
pub open spec fn sol_debit(es: Seq<MatchResult>, user: u64) -> int
    decreases es.len(),
{
    if es.len() == 0 {
        0
    } else {
        (match es[0] {
            MatchResult::Trade(t) => if t.seller == user { t.qty as int } else { 0 },
            MatchResult::OrderAccepted(_) => 0,
        }) + sol_debit(es.drop_first(), user)
    }
}

/// Every user's locked USD is exactly what their bids in `bids` hold plus
/// the USD the fills `es` will take from them; likewise for SOL, asks and
/// fills.
pub open spec fn locks_match(
    v: EngineView,
    bids: Seq<Order>,
    asks: Seq<Order>,
    es: Seq<MatchResult>,
    limit: Option<u64>,
) -> bool {
    &&& forall|u: u64| #[trigger] usd_of(v, u).locked == locked_for(bids, u) + usd_debit(es, u, limit)
    &&& forall|u: u64| #[trigger] sol_of(v, u).locked == locked_for(asks, u) + sol_debit(es, u)
}

/// The lock-first invariant: every user's locked USD is exactly what their
/// resting bids hold, and their locked SOL exactly what their resting asks
/// hold.
pub open spec fn locks_exact(v: EngineView) -> bool {
    locks_match(v, v.book.bids, v.book.asks, Seq::empty(), None)
}

proof fn lemma_mul_nonneg(a: int, b: int)
    requires
        a >= 0,
        b >= 0,
    ensures
        a * b >= 0,
{
    assert(a * b >= 0) by (nonlinear_arith)
        requires
            a >= 0,
            b >= 0,
    ;
}

proof fn lemma_locked_for_nonneg(q: Seq<Order>, user: u64)
    ensures
        locked_for(q, user) >= 0,
    decreases q.len(),
{
    if q.len() > 0 {
        lemma_locked_for_nonneg(q.drop_first(), user);
        lemma_mul_nonneg(q[0].price as int, q[0].remaining_qty as int);
    }
}

proof fn lemma_debits_nonneg(es: Seq<MatchResult>, user: u64, limit: Option<u64>)
    ensures
        usd_debit(es, user, limit) >= 0,
        sol_debit(es, user) >= 0,
    decreases es.len(),
{
    if es.len() > 0 {
        lemma_debits_nonneg(es.drop_first(), user, limit);
        if let MatchResult::Trade(t) = es[0] {
            lemma_mul_nonneg(t.price as int, t.qty as int);
            if let Some(p) = limit {
                if p >= t.price {
                    lemma_mul_nonneg(p - t.price, t.qty as int);
                }
            }
        }
    }
}

/// Inserting an order adds its weight to its owner.
proof fn lemma_locked_for_insert(q: Seq<Order>, p: int, o: Order, user: u64)
    requires
        0 <= p <= q.len(),
    ensures
        locked_for(q.insert(p, o), user) == locked_for(q, user) + (if o.user_id == user { order_weight(o) } else { 0 }),
    decreases q.len(),
{
    if p == 0 {
        assert(q.insert(p, o).drop_first() =~= q);
    } else {
        lemma_locked_for_insert(q.drop_first(), p - 1, o, user);
        assert(q.insert(p, o).drop_first() =~= q.drop_first().insert(p - 1, o));
        assert(q.insert(p, o)[0] == q[0]);
    }
}

/// Removing an order takes its weight from its owner.
proof fn lemma_locked_for_remove(q: Seq<Order>, i: int, user: u64)
    requires
        0 <= i < q.len(),
    ensures
        locked_for(q.remove(i), user) == locked_for(q, user) - (if q[i].user_id == user { order_weight(q[i]) } else { 0 }),
    decreases q.len(),
{
    if i == 0 {
        assert(q.remove(i) =~= q.drop_first());
    } else {
        lemma_locked_for_remove(q.drop_first(), i - 1, user);
        assert(q.remove(i).drop_first() =~= q.drop_first().remove(i - 1));
        assert(q.remove(i)[0] == q[0]);
    }
}

/// A resting-order event at the end takes nothing.
proof fn lemma_debits_push_accepted(es: Seq<MatchResult>, a: OrderAccepted, user: u64, limit: Option<u64>)
    ensures
        usd_debit(es.push(MatchResult::OrderAccepted(a)), user, limit) == usd_debit(es, user, limit),
        sol_debit(es.push(MatchResult::OrderAccepted(a)), user) == sol_debit(es, user),
    decreases es.len(),
{
    let e = MatchResult::OrderAccepted(a);
    if es.len() > 0 {
        lemma_debits_push_accepted(es.drop_first(), a, user, limit);
        assert(es.push(e).drop_first() =~= es.drop_first().push(e));
        assert(es.push(e)[0] == es[0]);
    } else {
        assert(es.push(e).drop_first() =~= Seq::<MatchResult>::empty());
        assert(usd_debit(es.push(e).drop_first(), user, limit) == 0);
        assert(sol_debit(es.push(e).drop_first(), user) == 0);
        assert(es.push(e)[0] == e);
    }
}

/// What a sweep moves: the weight the filled makers lose on their queue is
/// what the fills take from the makers' locked funds, and what the fills
/// take from the taker is the units (for an ask) or the limit times the
/// units (for a bid: the fill price plus what goes back to available).
#[verifier::spinoff_prover]
proof fn lemma_sweep_debits(opp: Seq<Order>, side: Side, price: u64, qty: u64, taker: u64, id: u64, n: u64, user: u64)
    requires
        queue_ok(opposite(side), opp, n),
    ensures
        ({
            let s = sweep(opp, side, price, qty);
            let ev = fill_results(s.0, side, taker, id);
            &&& side == Side::Bid ==> sol_debit(ev, user) + locked_for(s.1, user) == locked_for(opp, user)
                && usd_debit(ev, user, Some(price)) == (if user == taker { price * fill_total(s.0) } else { 0 })
            &&& side == Side::Ask ==> usd_debit(ev, user, None) + locked_for(s.1, user) == locked_for(opp, user)
                && sol_debit(ev, user) == (if user == taker { fill_total(s.0) as int } else { 0 })
        }),
    decreases opp.len(),
{
    let s = sweep(opp, side, price, qty);
    let ev = fill_results(s.0, side, taker, id);
    if qty == 0 || opp.len() == 0 || !crosses(side, price, opp[0].price) {
        assert(ev =~= Seq::<MatchResult>::empty());
        assert(usd_debit(ev, user, Some(price)) == 0 && usd_debit(ev, user, None) == 0 && sol_debit(ev, user) == 0);
        assert(fill_total(s.0) == 0);
    } else {
        let m = opp[0];
        assert(well_placed(opposite(side), m, n));
        if qty < m.remaining_qty {
            let m2 = Order { remaining_qty: (m.remaining_qty - qty) as u64, ..m };
            assert(s.1 == opp.update(0, m2));
            assert(s.1.drop_first() =~= opp.drop_first());
            assert(ev.drop_first() =~= Seq::<MatchResult>::empty());
            assert(ev[0] == MatchResult::Trade(trade_for(side, taker, id, m, qty)));
            assert(s.0.drop_first() =~= Seq::<(Order, u64)>::empty());
            assert(m.price * m.remaining_qty == m.price * qty + m.price * (m.remaining_qty - qty)) by (nonlinear_arith);
            assert(usd_debit(ev.drop_first(), user, Some(price)) == 0 && usd_debit(ev.drop_first(), user, None) == 0
                && sol_debit(ev.drop_first(), user) == 0);
            assert(fill_total(s.0.drop_first()) == 0);
            assert(fill_total(s.0) == qty);
            assert(s.1[0] == m2);
            assert(locked_for(s.1, user) == (if m.user_id == user { order_weight(m2) } else { 0 }) + locked_for(
                opp.drop_first(),
                user,
            ));
            if side == Side::Bid {
                assert(m.price * qty + (price - m.price) * qty == price * qty) by (nonlinear_arith);
            }
        } else {
            let t = opp.drop_first();
            let q2 = (qty - m.remaining_qty) as u64;
            lemma_queue_ok_drop_first(opposite(side), opp, n);
            lemma_sweep_debits(t, side, price, q2, taker, id, n, user);
            let r = sweep(t, side, price, q2);
            assert(s.0 == seq![(m, m.remaining_qty)] + r.0);
            assert(s.0.drop_first() =~= r.0);
            assert(ev.drop_first() =~= fill_results(r.0, side, taker, id));
            assert(ev[0] == MatchResult::Trade(trade_for(side, taker, id, m, m.remaining_qty)));
            assert(fill_total(s.0) == m.remaining_qty + fill_total(r.0));
            if side == Side::Bid {
                assert(m.price * m.remaining_qty + (price - m.price) * m.remaining_qty == price * m.remaining_qty)
                    by (nonlinear_arith);
                assert(price * fill_total(s.0) == price * m.remaining_qty + price * fill_total(r.0)) by (nonlinear_arith)
                    requires
                        fill_total(s.0) == m.remaining_qty + fill_total(r.0),
                ;
            }
        }
    }
}

/// Settling fills changes balances only.
proof fn lemma_settle_events_book(v: EngineView, es: Seq<MatchResult>, limit: Option<u64>)
    ensures
        settle_events_run(v, es, limit).0.book == v.book,
    decreases es.len(),
{
    if es.len() > 0 {
        match es[0] {
            MatchResult::Trade(t) => {
                lemma_settle_events_book(fill_run(v, t, limit).0, es.drop_first(), limit);
            },
            MatchResult::OrderAccepted(_) => {
                lemma_settle_events_book(v, es.drop_first(), limit);
            },
        }
    }
}

/// When locked funds are exactly the resting orders plus the coming fills,
/// no fill takes more than is locked, and afterwards the locked funds are
/// exactly the resting orders.
#[verifier::spinoff_prover]
proof fn lemma_settle_events_match(v: EngineView, bids: Seq<Order>, asks: Seq<Order>, es: Seq<MatchResult>, limit: Option<u64>)
    requires
        locks_match(v, bids, asks, es, limit),
    ensures
        settle_events_run(v, es, limit).1 != Err::<(), LedgerFault>(LedgerFault::Underflow),
        settle_events_run(v, es, limit).1 is Ok ==> locks_match(
            settle_events_run(v, es, limit).0,
            bids,
            asks,
            Seq::empty(),
            limit,
        ),
    decreases es.len(),
{
    if es.len() == 0 {
        return;
    }
    let tail = es.drop_first();
    match es[0] {
        MatchResult::OrderAccepted(_) => {
            assert(locks_match(v, bids, asks, tail, limit)) by {
                assert forall|u: u64| #[trigger] usd_of(v, u).locked == locked_for(bids, u) + usd_debit(tail, u, limit) by {
                    assert(usd_of(v, u).locked == locked_for(bids, u) + usd_debit(es, u, limit));
                }
                assert forall|u: u64| #[trigger] sol_of(v, u).locked == locked_for(asks, u) + sol_debit(tail, u) by {
                    assert(sol_of(v, u).locked == locked_for(asks, u) + sol_debit(es, u));
                }
            }
            lemma_settle_events_match(v, bids, asks, tail, limit);
        },
        MatchResult::Trade(t) => {
            let value = t.price * t.qty;
            let d = price_improvement(t, limit);
            lemma_locked_for_nonneg(bids, t.buyer);
            lemma_locked_for_nonneg(asks, t.seller);
            lemma_debits_nonneg(tail, t.buyer, limit);
            lemma_debits_nonneg(tail, t.seller, limit);
            lemma_debits_nonneg(seq![es[0]], t.buyer, limit);
            lemma_mul_nonneg(t.price as int, t.qty as int);
            assert(d >= 0);
            assert(usd_of(v, t.buyer).locked == locked_for(bids, t.buyer) + usd_debit(es, t.buyer, limit));
            assert(usd_debit(es, t.buyer, limit) == value + d + usd_debit(tail, t.buyer, limit));
            assert(sol_of(v, t.seller).locked == locked_for(asks, t.seller) + sol_debit(es, t.seller));
            let r0 = settle_run(v, t);
            if r0.1 is Ok {
                let v0 = r0.0;
                assert(usd_of(v0, t.buyer).locked == usd_of(v, t.buyer).locked - value);
                let r = fill_run(v, t, limit);
                if r.1 is Ok {
                    let v1 = r.0;
                    assert forall|u: u64| #[trigger] usd_of(v1, u).locked == usd_of(v, u).locked - (if u == t.buyer {
                        value + d
                    } else {
                        0
                    }) by {}
                    assert forall|u: u64| #[trigger] sol_of(v1, u).locked == sol_of(v, u).locked - (if u == t.seller {
                        t.qty as int
                    } else {
                        0
                    }) by {}
                    assert(locks_match(v1, bids, asks, tail, limit)) by {
                        assert forall|u: u64| #[trigger] usd_of(v1, u).locked == locked_for(bids, u) + usd_debit(tail, u, limit) by {
                            assert(usd_of(v, u).locked == locked_for(bids, u) + usd_debit(es, u, limit));
                        }
                        assert forall|u: u64| #[trigger] sol_of(v1, u).locked == locked_for(asks, u) + sol_debit(tail, u) by {
                            assert(sol_of(v, u).locked == locked_for(asks, u) + sol_debit(es, u));
                        }
                    }
                    lemma_settle_events_match(v1, bids, asks, tail, limit);
                }
            }
        },
    }
}

/// An order whose payment is locked goes to the book: if before booking the
/// locked funds are exactly the resting orders plus the new order's
/// payment, no fill takes more than is locked, and afterwards the locked
/// funds are exactly the resting orders of the new (valid) book.
#[verifier::spinoff_prover]
proof fn lemma_booking_keeps_locks_exact(v: EngineView, user: u64, side: Side, p: u64, q: u64)
    requires
        v.book.valid(),
        p > 0,
        q > 0,
        side == Side::Bid ==> forall|u: u64| #[trigger] usd_of(v, u).locked == locked_for(v.book.bids, u) + (if u == user {
            p * q
        } else {
            0
        }),
        side == Side::Bid ==> forall|u: u64| #[trigger] sol_of(v, u).locked == locked_for(v.book.asks, u),
        side == Side::Ask ==> forall|u: u64| #[trigger] usd_of(v, u).locked == locked_for(v.book.bids, u),
        side == Side::Ask ==> forall|u: u64| #[trigger] sol_of(v, u).locked == locked_for(v.book.asks, u) + (if u == user {
            q as int
        } else {
            0
        }),
    ensures
        book_and_settle(v, user, side, p, q).1 != Err::<OrderOutcome, LedgerFault>(LedgerFault::Underflow),
        book_and_settle(v, user, side, p, q).1 is Ok ==> locks_exact(book_and_settle(v, user, side, p, q).0)
            && book_and_settle(v, user, side, p, q).0.book.valid(),
{
    let book = v.book;
    if book.next_order_id == u64::MAX || book.size() >= usize::MAX {
        return;
    }
    let n = book.next_order_id;
    let lim = bid_limit(side, p);
    let pl = placed(book, user, side, p, q);
    lemma_placed_valid(book, user, side, p, q);
    let v3 = EngineView { book: pl.0, ..v };
    let opp = book.queue(opposite(side));
    let own = book.queue(side);
    let sw = sweep(opp, side, p, q);
    let f = sw.0;
    let left = sw.2;
    let fev = fill_results(f, side, user, n);
    let o = Order { order_id: n, user_id: user, side, price: p, remaining_qty: left };
    let acc = OrderAccepted { order_id: n, user_id: user, side, price: p, remaining_qty: left };
    let pos = rest_index(own, side, o);
    assert(queue_ok(opposite(side), opp, n));
    lemma_sweep_fills(opp, side, p, q, n);
    lemma_rest_index_bounds(own, side, o);
    assert(p * q == p * left + p * fill_total(f)) by (nonlinear_arith)
        requires
            q == left + fill_total(f),
    ;
    assert forall|u: u64| #[trigger] usd_of(v3, u).locked == locked_for(pl.0.bids, u) + usd_debit(pl.1, u, lim) by {
        lemma_sweep_debits(opp, side, p, q, user, n, n, u);
        if left > 0 {
            lemma_debits_push_accepted(fev, acc, u, lim);
            lemma_locked_for_insert(own, pos, o, u);
        }
        assert(usd_of(v3, u) == usd_of(v, u));
    }
    assert forall|u: u64| #[trigger] sol_of(v3, u).locked == locked_for(pl.0.asks, u) + sol_debit(pl.1, u) by {
        lemma_sweep_debits(opp, side, p, q, user, n, n, u);
        if left > 0 {
            lemma_debits_push_accepted(fev, acc, u, lim);
            lemma_locked_for_insert(own, pos, o, u);
        }
        assert(sol_of(v3, u) == sol_of(v, u));
    }
    lemma_settle_events_match(v3, pl.0.bids, pl.0.asks, pl.1, lim);
    lemma_settle_events_book(v3, pl.1, lim);
    let fin = settle_events_run(v3, pl.1, lim).0;
    if settle_events_run(v3, pl.1, lim).1 is Ok {
        assert forall|u: u64| #[trigger] usd_of(fin, u).locked == locked_for(fin.book.bids, u) + usd_debit(
            Seq::empty(),
            u,
            None,
        ) by {
            assert(usd_of(fin, u).locked == locked_for(pl.0.bids, u) + usd_debit(Seq::empty(), u, lim));
        }
        assert forall|u: u64| #[trigger] sol_of(fin, u).locked == locked_for(fin.book.asks, u) + sol_debit(Seq::empty(), u) by {
            assert(sol_of(fin, u).locked == locked_for(pl.0.asks, u) + sol_debit(Seq::empty(), u));
        }
    }
}

/// Law (lock-first, placing): if every user's locked funds are exactly
/// what their resting orders hold, an order request never takes more from
/// `locked` than is there, and after it the locked funds are again exactly
/// what the resting orders of the (still valid) book hold; in particular a
/// bid filled below its limit keeps nothing locked for the filled part.
#[verifier::spinoff_prover]
pub proof fn law_place_keeps_locks_exact(v: EngineView, user: u64, asset: Seq<char>, side: Seq<char>, price: i64, qty: i64)
    requires
        v.book.valid(),
        locks_exact(v),
    ensures
        place_spec(v, user, asset, side, price, qty).1 != Err::<OrderOutcome, LedgerFault>(LedgerFault::Underflow),
        place_spec(v, user, asset, side, price, qty).1 is Ok ==> locks_exact(place_spec(v, user, asset, side, price, qty).0)
            && place_spec(v, user, asset, side, price, qty).0.book.valid(),
{
    if asset != sol_symbol() || (side != bid_word() && side != ask_word())
        || price <= 0 || qty <= 0 || price * qty > u64::MAX {
        return;
    }
    let p = price as u64;
    let q = qty as u64;
    assert(p * q == price * qty);
    if side == bid_word() {
        let b = usd_of(v, user);
        if b.available < p * q || b.locked + p * q > u64::MAX {
            let w = with_usd(v, user, b);
            assert forall|u: u64| #[trigger] usd_of(w, u).locked == locked_for(w.book.bids, u) + usd_debit(Seq::empty(), u, None) by {
                assert(usd_of(v, u).locked == locked_for(v.book.bids, u) + usd_debit(Seq::empty(), u, None));
            }
            assert forall|u: u64| #[trigger] sol_of(w, u).locked == locked_for(w.book.asks, u) + sol_debit(Seq::empty(), u) by {
                assert(sol_of(v, u).locked == locked_for(v.book.asks, u) + sol_debit(Seq::empty(), u));
            }
            return;
        }
        let vl = with_usd(v, user, Balance { available: (b.available - p * q) as u64, locked: (b.locked + p * q) as u64 });
        assert forall|u: u64| #[trigger] usd_of(vl, u).locked == locked_for(vl.book.bids, u) + (if u == user {
            p * q
        } else {
            0
        }) by {
            assert(usd_of(v, u).locked == locked_for(v.book.bids, u) + usd_debit(Seq::empty(), u, None));
        }
        assert forall|u: u64| #[trigger] sol_of(vl, u).locked == locked_for(vl.book.asks, u) by {
            assert(sol_of(v, u).locked == locked_for(v.book.asks, u) + sol_debit(Seq::empty(), u));
        }
        lemma_booking_keeps_locks_exact(vl, user, Side::Bid, p, q);
    } else {
        let b = sol_of(v, user);
        if b.available < q || b.locked + q > u64::MAX {
            let w = with_sol(v, user, b);
            assert forall|u: u64| #[trigger] usd_of(w, u).locked == locked_for(w.book.bids, u) + usd_debit(Seq::empty(), u, None) by {
                assert(usd_of(v, u).locked == locked_for(v.book.bids, u) + usd_debit(Seq::empty(), u, None));
            }
            assert forall|u: u64| #[trigger] sol_of(w, u).locked == locked_for(w.book.asks, u) + sol_debit(Seq::empty(), u) by {
                assert(sol_of(v, u).locked == locked_for(v.book.asks, u) + sol_debit(Seq::empty(), u));
            }
            return;
        }
        let vl = with_sol(v, user, Balance { available: (b.available - q) as u64, locked: (b.locked + q) as u64 });
        assert forall|u: u64| #[trigger] usd_of(vl, u).locked == locked_for(vl.book.bids, u) by {
            assert(usd_of(v, u).locked == locked_for(v.book.bids, u) + usd_debit(Seq::empty(), u, None));
        }
        assert forall|u: u64| #[trigger] sol_of(vl, u).locked == locked_for(vl.book.asks, u) + (if u == user {
            q as int
        } else {
            0
        }) by {
            assert(sol_of(v, u).locked == locked_for(v.book.asks, u) + sol_debit(Seq::empty(), u));
        }
        lemma_booking_keeps_locks_exact(vl, user, Side::Ask, p, q);
    }
}

/// Law (lock-first, cancelling): if every user's locked funds are exactly
/// what their resting orders hold, cancelling never takes more from
/// `locked` than is there, and afterwards the locked funds are again exactly
/// what the resting orders hold.
#[verifier::spinoff_prover]
pub proof fn law_cancel_keeps_locks_exact(v: EngineView, order_id: u64, user: u64)
    requires
        v.book.valid(),
        locks_exact(v),
    ensures
        cancel_spec(v, order_id, user).1 != Err::<CancelOutcome, LedgerFault>(LedgerFault::Underflow),
        cancel_spec(v, order_id, user).1 is Ok ==> locks_exact(cancel_spec(v, order_id, user).0) && cancel_spec(
            v,
            order_id,
            user,
        ).0.book.valid(),
{
    lemma_without_order_valid(v.book, order_id);
    match lookup(v.book, order_id) {
        None => {},
        Some(o) => {
            if o.user_id != user {
                return;
            }
            let v1 = EngineView { book: without_order(v.book, order_id), ..v };
            let n = v.book.next_order_id;
            if has_id(v.book.bids, order_id) {
                let i = index_of_id(v.book.bids, order_id);
                assert(o == v.book.bids[i]);
                assert(well_placed(Side::Bid, v.book.bids[i], n));
                assert forall|u: u64| #[trigger] locked_for(v1.book.bids, u) == locked_for(v.book.bids, u) - (if u
                    == user {
                    o.price * o.remaining_qty
                } else {
                    0
                }) by {
                    lemma_locked_for_remove(v.book.bids, i, u);
                }
                lemma_locked_for_remove(v.book.bids, i, user);
                lemma_locked_for_nonneg(v.book.bids.remove(i), user);
                assert(usd_of(v, user).locked == locked_for(v.book.bids, user) + usd_debit(Seq::empty(), user, None));
            } else {
                let i = index_of_id(v.book.asks, order_id);
                assert(o == v.book.asks[i]);
                assert(well_placed(Side::Ask, v.book.asks[i], n));
                assert forall|u: u64| #[trigger] locked_for(v1.book.asks, u) == locked_for(v.book.asks, u) - (if u
                    == user {
                    o.remaining_qty as int
                } else {
                    0
                }) by {
                    lemma_locked_for_remove(v.book.asks, i, u);
                }
                lemma_locked_for_remove(v.book.asks, i, user);
                lemma_locked_for_nonneg(v.book.asks.remove(i), user);
                assert(sol_of(v, user).locked == locked_for(v.book.asks, user) + sol_debit(Seq::empty(), user));
            }
            if cancel_spec(v, order_id, user).1 is Ok {
                let v2 = cancel_spec(v, order_id, user).0;
                assert forall|u: u64| #[trigger] usd_of(v2, u).locked == locked_for(v2.book.bids, u) + usd_debit(
                    Seq::empty(),
                    u,
                    None,
                ) by {
                    assert(usd_of(v, u).locked == locked_for(v.book.bids, u) + usd_debit(Seq::empty(), u, None));
                }
                assert forall|u: u64| #[trigger] sol_of(v2, u).locked == locked_for(v2.book.asks, u) + sol_debit(
                    Seq::empty(),
                    u,
                ) by {
                    assert(sol_of(v, u).locked == locked_for(v.book.asks, u) + sol_debit(Seq::empty(), u));
                }
            }
        },
    }
}

/// A user's USD: available plus locked.
pub open spec fn usd_total(v: EngineView, user: u64) -> int {
    usd_of(v, user).available + usd_of(v, user).locked
}

/// A user's SOL: available plus locked.
pub open spec fn sol_total(v: EngineView, user: u64) -> int {
    sol_of(v, user).available + sol_of(v, user).locked
}

/// Law (a fill moves funds, creates none): settling a fill moves
/// `price * qty` USD from the buyer to the seller and `qty` SOL from the
/// seller to the buyer; every other user's funds, and the book, stay as
/// they were. (For a self-trade the two moves cancel out.)
pub proof fn law_fill_moves_funds(v: EngineView, t: Trade)
    ensures
        settle(v, t) matches Ok(v2) ==> {
            &&& v2.book == v.book
            &&& forall|u: u64| #[trigger] usd_total(v2, u) == usd_total(v, u) + (if u == t.seller {
                t.price * t.qty
            } else {
                0
            }) - (if u == t.buyer {
                t.price * t.qty
            } else {
                0
            })
            &&& forall|u: u64| #[trigger] sol_total(v2, u) == sol_total(v, u) + (if u == t.buyer {
                t.qty as int
            } else {
                0
            }) - (if u == t.seller {
                t.qty as int
            } else {
                0
            })
        },
{
}

/// The USD the trades among `es` bring `user`: what they sell minus what
/// they buy, at the trade prices. Every trade brings its seller exactly what
/// it takes from its buyer.
pub open spec fn usd_flow(es: Seq<MatchResult>, user: u64) -> int
    decreases es.len(),
{
    if es.len() == 0 {
        0
    } else {
        (match es[0] {
            MatchResult::Trade(t) => (if t.seller == user { t.price * t.qty } else { 0 }) - (if t.buyer == user {
                t.price * t.qty
            } else {
                0
            }),
            MatchResult::OrderAccepted(_) => 0,
        }) + usd_flow(es.drop_first(), user)
    }
}

/// The SOL the trades among `es` bring `user`: what they buy minus what
/// they sell.
pub open spec fn sol_flow(es: Seq<MatchResult>, user: u64) -> int
    decreases es.len(),
{
    if es.len() == 0 {
        0
    } else {
        (match es[0] {
            MatchResult::Trade(t) => (if t.buyer == user { t.qty as int } else { 0 }) - (if t.seller == user {
                t.qty as int
            } else {
                0
            }),
            MatchResult::OrderAccepted(_) => 0,
        }) + sol_flow(es.drop_first(), user)
    }
}

/// Settling fills (with what bids get back) changes each user's totals by
/// the trades' flows only.
proof fn lemma_settle_events_flow(v: EngineView, es: Seq<MatchResult>, limit: Option<u64>)
    ensures
        settle_events_run(v, es, limit).1 is Ok ==> forall|u: u64|
            #[trigger] usd_total(settle_events_run(v, es, limit).0, u) == usd_total(v, u) + usd_flow(es, u)
                && sol_total(settle_events_run(v, es, limit).0, u) == sol_total(v, u) + sol_flow(es, u),
    decreases es.len(),
{
    if es.len() == 0 {
        return;
    }
    let tail = es.drop_first();
    match es[0] {
        MatchResult::OrderAccepted(_) => {
            lemma_settle_events_flow(v, tail, limit);
        },
        MatchResult::Trade(t) => {
            let r = fill_run(v, t, limit);
            lemma_settle_events_flow(r.0, tail, limit);
            if settle_events_run(v, es, limit).1 is Ok {
                assert(r.1 is Ok);
                assert(settle_events_run(v, es, limit) == settle_events_run(r.0, tail, limit));
                assert(settle_run(v, t).1 is Ok);
                law_fill_moves_funds(v, t);
                let v0 = settle_run(v, t).0;
                assert forall|u: u64| #[trigger] usd_total(r.0, u) == usd_total(v0, u) && sol_total(r.0, u) == sol_total(v0, u) by {
                    if limit is Some {
                        let b = usd_of(v0, t.buyer);
                        assert(usd_of(r.0, t.buyer).available + usd_of(r.0, t.buyer).locked == b.available + b.locked);
                    }
                }
                let fin = settle_events_run(v, es, limit).0;
                assert forall|u: u64| #[trigger] usd_total(fin, u) == usd_total(v, u) + usd_flow(es, u) && sol_total(fin, u)
                    == sol_total(v, u) + sol_flow(es, u) by {
                    assert(usd_total(fin, u) == usd_total(r.0, u) + usd_flow(tail, u));
                    assert(sol_total(fin, u) == sol_total(r.0, u) + sol_flow(tail, u));
                    assert(usd_total(r.0, u) == usd_total(v0, u));
                    assert(sol_total(r.0, u) == sol_total(v0, u));
                }
            }
        },
    }
}

/// Law (an order request creates no funds): an accepted order request
/// changes each user's USD and SOL totals (available plus locked) by exactly
/// what the trades of the placement bring them; every trade takes from its
/// buyer what it gives its seller. A refused request changes no total.
#[verifier::spinoff_prover]
pub proof fn law_place_moves_funds(v: EngineView, user: u64, asset: Seq<char>, side: Seq<char>, price: i64, qty: i64)
    ensures
        place_spec(v, user, asset, side, price, qty).1 matches Ok(out) ==> ({
            let fin = place_spec(v, user, asset, side, price, qty).0;
            let s = if side == bid_word() { Side::Bid } else { Side::Ask };
            let events = placed(v.book, user, s, price as u64, qty as u64).1;
            &&& out is Rejected ==> forall|u: u64| #[trigger] usd_total(fin, u) == usd_total(v, u) && sol_total(fin, u) == sol_total(v, u)
            &&& !(out is Rejected) ==> forall|u: u64|
                #[trigger] usd_total(fin, u) == usd_total(v, u) + usd_flow(events, u) && sol_total(fin, u) == sol_total(v, u)
                    + sol_flow(events, u)
        }),
{
    if asset != sol_symbol() || (side != bid_word() && side != ask_word())
        || price <= 0 || qty <= 0 || price * qty > u64::MAX {
        return;
    }
    let p = price as u64;
    let q = qty as u64;
    let cost = (price * qty) as u64;
    assert(p * q == price * qty);
    assert(cost == p * q);
    let s = if side == bid_word() { Side::Bid } else { Side::Ask };
    let res = place_spec(v, user, asset, side, price, qty);
    let bu = usd_of(v, user);
    let bs = sol_of(v, user);
    let vl = if side == bid_word() {
        with_usd(v, user, Balance { available: (bu.available - cost) as u64, locked: (bu.locked + cost) as u64 })
    } else {
        with_sol(v, user, Balance { available: (bs.available - q) as u64, locked: (bs.locked + q) as u64 })
    };
    let locked_ok = if side == bid_word() {
        bu.available >= cost && bu.locked + cost <= u64::MAX
    } else {
        bs.available >= q && bs.locked + q <= u64::MAX
    };
    if !locked_ok {
        assert forall|u: u64| #[trigger] usd_total(res.0, u) == usd_total(v, u) && sol_total(res.0, u) == sol_total(v, u) by {}
        return;
    }
    assert(res == book_and_settle(vl, user, s, p, q));
    if res.1 is Ok {
        assert(!(vl.book.next_order_id == u64::MAX || vl.book.size() >= usize::MAX));
        assert(vl.book == v.book);
        let pl = placed(vl.book, user, s, p, q);
        let v3 = EngineView { book: pl.0, ..vl };
        lemma_settle_events_flow(v3, pl.1, bid_limit(s, p));
        assert forall|u: u64| #[trigger] usd_total(v3, u) == usd_total(v, u) && sol_total(v3, u) == sol_total(v, u) by {
            assert(usd_of(v3, u) == usd_of(vl, u));
            assert(sol_of(v3, u) == sol_of(vl, u));
        }
        assert forall|u: u64| #[trigger] usd_total(res.0, u) == usd_total(v, u) + usd_flow(pl.1, u) && sol_total(res.0, u)
            == sol_total(v, u) + sol_flow(pl.1, u) by {
            assert(usd_total(res.0, u) == usd_total(v3, u) + usd_flow(pl.1, u));
            assert(usd_total(v3, u) == usd_total(v, u));
        }
    }
}

/// Law (cancel refunds what the order locked): cancelling one's own resting
/// order moves exactly what it kept locked (`price * remaining_qty` USD for
/// a bid, `remaining_qty` SOL for an ask) from the owner's locked funds to
/// their available funds; nobody else's funds change.
pub proof fn law_cancel_refunds_lock(v: EngineView, order_id: u64, user: u64)
    ensures
        cancel_spec(v, order_id, user).1 matches Ok(CancelOutcome::Cancelled(c)) ==> {
            let v2 = cancel_spec(v, order_id, user).0;
            let w = match c.side {
                Side::Bid => c.price * c.remaining_qty,
                Side::Ask => c.remaining_qty as int,
            };
            &&& c.user_id == user
            &&& forall|u: u64| #[trigger] usd_total(v2, u) == usd_total(v, u)
            &&& forall|u: u64| #[trigger] sol_total(v2, u) == sol_total(v, u)
            &&& c.side == Side::Bid ==> usd_of(v2, user).available == usd_of(v, user).available + w
                && usd_of(v2, user).locked == usd_of(v, user).locked - w
            &&& c.side == Side::Ask ==> sol_of(v2, user).available == sol_of(v, user).available + w
                && sol_of(v2, user).locked == sol_of(v, user).locked - w
        },
{
}

/// Law (credits keep the lock-first invariant): signing up, on-ramping USD
/// and depositing an asset touch only available funds, so they keep every
/// user's locked funds exactly what their resting orders hold; a fresh
/// engine, which holds no funds and no orders, has it too.
pub proof fn law_credits_keep_locks_exact(v: EngineView, user: u64, symbol: Seq<char>, qty: u64)
    ensures
        locks_exact(EngineView { usd: Map::empty(), assets: Map::empty(), book: BookView { bids: Seq::empty(), asks: Seq::empty(), ..v.book } }),
        locks_exact(v) ==> locks_exact(
            EngineView {
                usd: v.usd.insert(user, usd_of(v, user)),
                assets: v.assets.insert(user, assets_of(v, user)),
                book: v.book,
            },
        ),
        locks_exact(v) && usd_of(v, user).available + qty <= u64::MAX ==> locks_exact(
            with_usd(v, user, Balance { available: (usd_of(v, user).available + qty) as u64, ..usd_of(v, user) }),
        ),
        locks_exact(v) && asset_of(v, user, symbol).available + qty <= u64::MAX ==> locks_exact(
            with_asset(
                v,
                user,
                symbol,
                Balance {
                    available: (asset_of(v, user, symbol).available + qty) as u64,
                    ..asset_of(v, user, symbol)
                },
            ),
        ),
{
    let e = EngineView { usd: Map::empty(), assets: Map::empty(), book: BookView { bids: Seq::empty(), asks: Seq::empty(), ..v.book } };
    assert forall|u: u64| #[trigger] usd_of(e, u).locked == locked_for(e.book.bids, u) + usd_debit(Seq::empty(), u, None) by {}
    assert forall|u: u64| #[trigger] sol_of(e, u).locked == locked_for(e.book.asks, u) + sol_debit(Seq::empty(), u) by {}
    if locks_exact(v) {
        let v1 = EngineView {
            usd: v.usd.insert(user, usd_of(v, user)),
            assets: v.assets.insert(user, assets_of(v, user)),
            book: v.book,
        };
        assert forall|u: u64| #[trigger] usd_of(v1, u).locked == locked_for(v1.book.bids, u) + usd_debit(Seq::empty(), u, None) by {
            assert(usd_of(v, u).locked == locked_for(v.book.bids, u) + usd_debit(Seq::empty(), u, None));
        }
        assert forall|u: u64| #[trigger] sol_of(v1, u).locked == locked_for(v1.book.asks, u) + sol_debit(Seq::empty(), u) by {
            assert(sol_of(v, u).locked == locked_for(v.book.asks, u) + sol_debit(Seq::empty(), u));
        }
        let b = usd_of(v, user);
        let v2 = with_usd(v, user, Balance { available: (b.available + qty) as u64, ..b });
        assert forall|u: u64| #[trigger] usd_of(v2, u).locked == locked_for(v2.book.bids, u) + usd_debit(Seq::empty(), u, None) by {
            assert(usd_of(v, u).locked == locked_for(v.book.bids, u) + usd_debit(Seq::empty(), u, None));
        }
        assert forall|u: u64| #[trigger] sol_of(v2, u).locked == locked_for(v2.book.asks, u) + sol_debit(Seq::empty(), u) by {
            assert(sol_of(v, u).locked == locked_for(v.book.asks, u) + sol_debit(Seq::empty(), u));
        }
        let a = asset_of(v, user, symbol);
        let v3 = with_asset(v, user, symbol, Balance { available: (a.available + qty) as u64, ..a });
        assert forall|u: u64| #[trigger] usd_of(v3, u).locked == locked_for(v3.book.bids, u) + usd_debit(Seq::empty(), u, None) by {
            assert(usd_of(v, u).locked == locked_for(v.book.bids, u) + usd_debit(Seq::empty(), u, None));
        }
        assert forall|u: u64| #[trigger] sol_of(v3, u).locked == locked_for(v3.book.asks, u) + sol_debit(Seq::empty(), u) by {
            assert(sol_of(v, u).locked == locked_for(v.book.asks, u) + sol_debit(Seq::empty(), u));
        }
    }
}

} // verus!
