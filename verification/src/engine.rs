//! What the engine does with each request: sign-up, on-ramp, deposit,
//! placing and cancelling orders, and the queries.
//!
//! Balance accounting follows the lock-first rule: before an order reaches
//! the book its payment moves from `available` to `locked` (a bid locks
//! `price * qty` USD, an ask locks `qty` SOL). A fill then always takes the
//! buyer's USD and the seller's SOL from `locked`, and credits the buyer's
//! SOL and the seller's USD to `available`. A bid that fills below its
//! limit gets the part of its lock above the fill price back to
//! `available`, so that `locked` is always exactly what the resting orders
//! hold (see `funds`).
//!
//! Where plain `u64` arithmetic would overflow (or go below zero) the
//! functions here stop and report a [`LedgerFault`]; the state is then left
//! as it stood at that point.

use vstd::prelude::*;
use crate::book_model::{cancelled_of, depth, depth_fits, lookup, placed, without_order};
use crate::ledger::{Balance, AssetBalances};
use crate::orderbook::{levels_match, LevelSnapshot, MatchResult, Order, OrderCancelled, OrderbookError, Side, Trade};
use crate::state::{
    asset_of, assets_of, sol_of, sol_string, sol_symbol, usd_of, with_asset, with_sol, with_usd, EngineState,
    EngineView,
};

verus! {

/// Arithmetic on a balance (or an order id) that does not fit a `u64`.
#[derive(Debug, Clone, Copy, PartialEq, Eq, Structural)]
pub enum LedgerFault {
    /// A sum or product above `u64::MAX`.
    Overflow,
    /// A subtraction below zero.
    Underflow,
}

/// Why an order was refused before it reached the book.
#[derive(Debug, Clone, Copy, PartialEq, Eq, Structural)]
pub enum OrderRejection {
    UnsupportedAsset,
    InvalidSide,
    NotPositive,
    InsufficientUsd,
    InsufficientSol,
}

/// What became of an order request.
#[derive(Debug, Clone, Copy, PartialEq, Eq, Structural)]
pub enum OrderOutcome {
    Rejected(OrderRejection),
    /// Some quantity rests on the book under this id.
    Open(u64),
    /// Fully filled on arrival.
    Filled,
}

/// What became of a cancel request.
#[derive(Debug, Clone, Copy, PartialEq, Eq, Structural)]
pub enum CancelOutcome {
    NotFound,
    NotOwner,
    Cancelled(OrderCancelled),
}

pub open spec fn bid_word() -> Seq<char> {
    seq!['b', 'i', 'd']
}

pub open spec fn ask_word() -> Seq<char> {
    seq!['a', 's', 'k']
}

/// The status code sent with a rejection.
pub open spec fn rejection_status(r: OrderRejection) -> u16 {
    match r {
        OrderRejection::NotPositive => 500,
        _ => 400,
    }
}

impl OrderRejection {
    /// The status code sent with this rejection.
    pub fn status_code(&self) -> (c: u16)
        ensures
            c == rejection_status(*self),
            *self == OrderRejection::NotPositive ==> c == 500,
            *self != OrderRejection::NotPositive ==> c == 400,
    {
        match self {
            OrderRejection::NotPositive => 500,
            _ => 400,
        }
    }

    /// The message sent with this rejection.
    pub fn message(&self) -> (m: String)
        ensures
            m@ == (match *self {
                OrderRejection::UnsupportedAsset => "Only SOL orders are supported"@,
                OrderRejection::InvalidSide => "side must be bid or ask"@,
                OrderRejection::NotPositive => "price and qty must be positive numbers"@,
                OrderRejection::InsufficientUsd => "Insufficient USD"@,
                OrderRejection::InsufficientSol => "Insufficient SOL"@,
            }),
    {
        match self {
            OrderRejection::UnsupportedAsset => "Only SOL orders are supported".to_owned(),
            OrderRejection::InvalidSide => "side must be bid or ask".to_owned(),
            OrderRejection::NotPositive => "price and qty must be positive numbers".to_owned(),
            OrderRejection::InsufficientUsd => "Insufficient USD".to_owned(),
            OrderRejection::InsufficientSol => "Insufficient SOL".to_owned(),
        }
    }
}

impl Side {
    /// The side's name on the wire: "bid" or "ask".
    pub fn name(&self) -> (s: String)
        ensures
            s@ == (match *self {
                Side::Bid => bid_word(),
                Side::Ask => ask_word(),
            }),
    {
        match self {
            Side::Bid => bid_string(),
            Side::Ask => ask_string(),
        }
    }
}

/// Applying one fill to the balances, step by step as the ledger does it:
/// the buyer's USD leaves `locked`, the buyer's SOL `available` grows, the
/// seller's SOL leaves `locked`, the seller's USD `available` grows. Each
/// step first makes sure the balance it touches has an entry. Returns the
/// state reached and, if a step does not fit a `u64`, the fault at which it
/// stopped.
pub open spec fn settle_run(v: EngineView, t: Trade) -> (EngineView, Result<(), LedgerFault>) {
    let value = t.price * t.qty;
    if value > u64::MAX {
        (v, Err(LedgerFault::Overflow))
    } else {
        let b1 = usd_of(v, t.buyer);
        if b1.locked < value {
            (with_usd(v, t.buyer, b1), Err(LedgerFault::Underflow))
        } else {
            let v1 = with_usd(v, t.buyer, Balance { locked: (b1.locked - value) as u64, ..b1 });
            let b2 = sol_of(v1, t.buyer);
            if b2.available + t.qty > u64::MAX {
                (with_sol(v1, t.buyer, b2), Err(LedgerFault::Overflow))
            } else {
                let v2 = with_sol(v1, t.buyer, Balance { available: (b2.available + t.qty) as u64, ..b2 });
                let b3 = sol_of(v2, t.seller);
                if b3.locked < t.qty {
                    (with_sol(v2, t.seller, b3), Err(LedgerFault::Underflow))
                } else {
                    let v3 = with_sol(v2, t.seller, Balance { locked: (b3.locked - t.qty) as u64, ..b3 });
                    let b4 = usd_of(v3, t.seller);
                    if b4.available + value > u64::MAX {
                        (with_usd(v3, t.seller, b4), Err(LedgerFault::Overflow))
                    } else {
                        (with_usd(v3, t.seller, Balance { available: (b4.available + value) as u64, ..b4 }), Ok(()))
                    }
                }
            }
        }
    }
}

/// The balances after one fill, or the fault that stops it.
pub open spec fn settle(v: EngineView, t: Trade) -> Result<EngineView, LedgerFault> {
    match settle_run(v, t).1 {
        Ok(()) => Ok(settle_run(v, t).0),
        Err(e) => Err(e),
    }
}

/// What a bid taker gets back of its lock on a fill below its limit: the
/// lock was `limit * qty` but the fill costs `t.price * qty`.
pub open spec fn price_improvement(t: Trade, limit: Option<u64>) -> int {
    match limit {
        Some(p) => if p >= t.price { (p - t.price) * t.qty } else { 0 },
        None => 0,
    }
}

/// Moving `amount` of `user`'s USD from locked back to available (the
/// entry is created first if missing).
pub open spec fn release_run(v: EngineView, user: u64, amount: int) -> (EngineView, Result<(), LedgerFault>) {
    let b = usd_of(v, user);
    if amount > u64::MAX {
        (v, Err(LedgerFault::Overflow))
    } else if b.locked < amount {
        (with_usd(v, user, b), Err(LedgerFault::Underflow))
    } else if b.available + amount > u64::MAX {
        (with_usd(v, user, Balance { locked: (b.locked - amount) as u64, ..b }), Err(LedgerFault::Overflow))
    } else {
        (with_usd(v, user, Balance { available: (b.available + amount) as u64, locked: (b.locked - amount) as u64 }), Ok(()))
    }
}

/// One fill of an incoming order: settle it, then (for a bid taker with
/// limit `limit`) give the buyer back what it locked above the fill price.
pub open spec fn fill_run(v: EngineView, t: Trade, limit: Option<u64>) -> (EngineView, Result<(), LedgerFault>) {
    let r = settle_run(v, t);
    match r.1 {
        Ok(()) => match limit {
            Some(_) => release_run(r.0, t.buyer, price_improvement(t, limit)),
            None => r,
        },
        Err(e) => (r.0, Err(e)),
    }
}

/// Applying the fills among `events` in order, stopping at the first fault;
/// `limit` is the taker's limit when the taker is a bid.
pub open spec fn settle_events_run(v: EngineView, events: Seq<MatchResult>, limit: Option<u64>) -> (
    EngineView,
    Result<(), LedgerFault>,
)
    decreases events.len(),
{
    if events.len() == 0 {
        (v, Ok(()))
    } else {
        match events[0] {
            MatchResult::Trade(t) => {
                let r = fill_run(v, t, limit);
                match r.1 {
                    Ok(()) => settle_events_run(r.0, events.drop_first(), limit),
                    Err(e) => (r.0, Err(e)),
                }
            },
            MatchResult::OrderAccepted(_) => settle_events_run(v, events.drop_first(), limit),
        }
    }
}

/// The taker's limit when it is a bid (what it locked per unit).
pub open spec fn bid_limit(side: Side, price: u64) -> Option<u64> {
    match side {
        Side::Bid => Some(price),
        Side::Ask => None,
    }
}

/// The id of the last resting-order event, if any.
pub open spec fn last_accepted(events: Seq<MatchResult>) -> Option<u64>
    decreases events.len(),
{
    if events.len() == 0 {
        None
    } else {
        match events.last() {
            MatchResult::OrderAccepted(a) => Some(a.order_id),
            MatchResult::Trade(_) => last_accepted(events.drop_last()),
        }
    }
}

/// An order with its payment locked goes to the book, and its fills are
/// settled; a bid gets back, fill by fill, what it locked above the fill
/// price. Returns the state reached and the outcome, or the fault.
pub open spec fn book_and_settle(v: EngineView, user: u64, side: Side, price: u64, qty: u64) -> (
    EngineView,
    Result<OrderOutcome, LedgerFault>,
) {
    if v.book.next_order_id == u64::MAX || v.book.size() >= usize::MAX {
        (v, Err(LedgerFault::Overflow))
    } else {
        let p = placed(v.book, user, side, price, qty);
        let r = settle_events_run(EngineView { book: p.0, ..v }, p.1, bid_limit(side, price));
        (
            r.0,
            match r.1 {
                Ok(()) => Ok(
                    match last_accepted(p.1) {
                        Some(id) => OrderOutcome::Open(id),
                        None => OrderOutcome::Filled,
                    },
                ),
                Err(e) => Err(e),
            },
        )
    }
}

/// The whole order request: checks, lock-first, matching, settlement.
/// Returns the state reached and the outcome, or the fault.
pub open spec fn place_spec(v: EngineView, user: u64, asset: Seq<char>, side: Seq<char>, price: i64, qty: i64) -> (
    EngineView,
    Result<OrderOutcome, LedgerFault>,
) {
    if asset != sol_symbol() {
        (v, Ok(OrderOutcome::Rejected(OrderRejection::UnsupportedAsset)))
    } else if side != bid_word() && side != ask_word() {
        (v, Ok(OrderOutcome::Rejected(OrderRejection::InvalidSide)))
    } else if price <= 0 || qty <= 0 {
        (v, Ok(OrderOutcome::Rejected(OrderRejection::NotPositive)))
    } else if price * qty > u64::MAX {
        (v, Err(LedgerFault::Overflow))
    } else {
        let p = price as u64;
        let q = qty as u64;
        let cost = (price * qty) as u64;
        if side == bid_word() {
            let b = usd_of(v, user);
            if b.available < cost {
                (with_usd(v, user, b), Ok(OrderOutcome::Rejected(OrderRejection::InsufficientUsd)))
            } else if b.locked + cost > u64::MAX {
                (with_usd(v, user, b), Err(LedgerFault::Overflow))
            } else {
                book_and_settle(
                    with_usd(v, user, Balance { available: (b.available - cost) as u64, locked: (b.locked + cost) as u64 }),
                    user,
                    Side::Bid,
                    p,
                    q,
                )
            }
        } else {
            let b = sol_of(v, user);
            if b.available < q {
                (with_sol(v, user, b), Ok(OrderOutcome::Rejected(OrderRejection::InsufficientSol)))
            } else if b.locked + q > u64::MAX {
                (with_sol(v, user, b), Err(LedgerFault::Overflow))
            } else {
                book_and_settle(
                    with_sol(v, user, Balance { available: (b.available - q) as u64, locked: (b.locked + q) as u64 }),
                    user,
                    Side::Ask,
                    p,
                    q,
                )
            }
        }
    }
}

/// Law (who pays is admitted): a SOL order request with positive price and
/// quantity whose `price * qty` fits a `u64` is refused for want of funds
/// exactly when the user has too little available: a bid when available USD
/// is below `price * qty`, an ask when available SOL is below `qty`. When the
/// available funds cover the order (equal counts as covering) it is not
/// refused at all: it is booked, or a ledger fault stops it.
pub proof fn law_order_admission(v: EngineView, user: u64, asset: Seq<char>, side: Seq<char>, price: i64, qty: i64)
    ensures
        ({
            let r = place_spec(v, user, asset, side, price, qty).1;
            let ok = asset == sol_symbol() && price > 0 && qty > 0 && price * qty <= u64::MAX;
            &&& ok && side == bid_word() ==> (r == Ok::<OrderOutcome, LedgerFault>(
                OrderOutcome::Rejected(OrderRejection::InsufficientUsd),
            ) <==> usd_of(v, user).available < price * qty)
            &&& ok && side == bid_word() && usd_of(v, user).available >= price * qty ==> !(r matches Ok(
                OrderOutcome::Rejected(_),
            ))
            &&& ok && side == ask_word() ==> (r == Ok::<OrderOutcome, LedgerFault>(
                OrderOutcome::Rejected(OrderRejection::InsufficientSol),
            ) <==> sol_of(v, user).available < qty)
            &&& ok && side == ask_word() && sol_of(v, user).available >= qty ==> !(r matches Ok(
                OrderOutcome::Rejected(_),
            ))
            &&& asset != sol_symbol() ==> r == Ok::<OrderOutcome, LedgerFault>(
                OrderOutcome::Rejected(OrderRejection::UnsupportedAsset),
            )
            &&& asset == sol_symbol() && side != bid_word() && side != ask_word() ==> r == Ok::<OrderOutcome, LedgerFault>(
                OrderOutcome::Rejected(OrderRejection::InvalidSide),
            )
            &&& asset == sol_symbol() && (side == bid_word() || side == ask_word()) && (price <= 0 || qty <= 0) ==> r
                == Ok::<OrderOutcome, LedgerFault>(OrderOutcome::Rejected(OrderRejection::NotPositive))
            &&& asset == sol_symbol() && (side == bid_word() || side == ask_word()) && price > 0 && qty > 0 && price
                * qty > u64::MAX ==> r == Err::<OrderOutcome, LedgerFault>(LedgerFault::Overflow)
        }),
{
    if asset == sol_symbol() && price > 0 && qty > 0 && price * qty <= u64::MAX {
        let cost = (price * qty) as u64;
        assert(cost == price * qty);
        assert(bid_word()[0] != ask_word()[0]);
    }
}

proof fn lemma_all_trades_none_accepted(events: Seq<MatchResult>)
    requires
        forall|i: int| 0 <= i < events.len() ==> #[trigger] events[i] is Trade,
    ensures
        last_accepted(events) is None,
    decreases events.len(),
{
    if events.len() > 0 {
        assert(events.last() is Trade);
        let d = events.drop_last();
        assert forall|i: int| 0 <= i < d.len() implies #[trigger] d[i] is Trade by {
            assert(d[i] == events[i]);
        }
        lemma_all_trades_none_accepted(d);
    }
}

/// Law (the id an open order gets): when an order request leaves part of
/// the order resting, the id it reports is the id the book was about to
/// hand out; an order that is filled on arrival reports `Filled`.
pub proof fn law_open_order_id(v: EngineView, user: u64, asset: Seq<char>, side: Seq<char>, price: i64, qty: i64)
    requires
        v.book.valid(),
    ensures
        place_spec(v, user, asset, side, price, qty).1 matches Ok(OrderOutcome::Open(id)) ==> id == v.book.next_order_id,
{
    let r = place_spec(v, user, asset, side, price, qty);
    if asset == sol_symbol() && (side == bid_word() || side == ask_word()) && price > 0 && qty > 0 && price * qty
        <= u64::MAX {
        let p = price as u64;
        let q = qty as u64;
        let s = if side == bid_word() { Side::Bid } else { Side::Ask };
        crate::book_laws::law_fills_in_priority_order(v.book, user, s, p, q);
        let opp = v.book.queue(crate::book_model::opposite(s));
        let sw = crate::book_model::sweep(opp, s, p, q);
        let events = placed(v.book, user, s, p, q).1;
        if sw.2 > 0 {
            assert(events.last() == events[sw.0.len() as int]);
        } else {
            assert forall|i: int| 0 <= i < events.len() implies #[trigger] events[i] is Trade by {
                assert(i < sw.0.len());
            }
            lemma_all_trades_none_accepted(events);
        }
    }
}

/// The whole cancel request: take the order off the book and give its
/// locked payment back (a bid's `price * remaining_qty` USD, an ask's
/// `remaining_qty` SOL). Returns the state reached and the outcome, or the
/// fault.
pub open spec fn cancel_spec(v: EngineView, order_id: u64, user: u64) -> (EngineView, Result<CancelOutcome, LedgerFault>) {
    match lookup(v.book, order_id) {
        None => (v, Ok(CancelOutcome::NotFound)),
        Some(o) => if o.user_id != user {
            (v, Ok(CancelOutcome::NotOwner))
        } else {
            let v1 = EngineView { book: without_order(v.book, order_id), ..v };
            match o.side {
                Side::Bid => {
                    let refund = o.price * o.remaining_qty;
                    let b = usd_of(v1, o.user_id);
                    if refund > u64::MAX {
                        (v1, Err(LedgerFault::Overflow))
                    } else if b.locked < refund {
                        (with_usd(v1, o.user_id, b), Err(LedgerFault::Underflow))
                    } else if b.available + refund > u64::MAX {
                        (with_usd(v1, o.user_id, Balance { locked: (b.locked - refund) as u64, ..b }), Err(LedgerFault::Overflow))
                    } else {
                        (
                            with_usd(
                                v1,
                                o.user_id,
                                Balance { available: (b.available + refund) as u64, locked: (b.locked - refund) as u64 },
                            ),
                            Ok(CancelOutcome::Cancelled(cancelled_of(o))),
                        )
                    }
                },
                Side::Ask => {
                    let b = sol_of(v1, o.user_id);
                    if b.locked < o.remaining_qty {
                        (with_sol(v1, o.user_id, b), Err(LedgerFault::Underflow))
                    } else if b.available + o.remaining_qty > u64::MAX {
                        (
                            with_sol(v1, o.user_id, Balance { locked: (b.locked - o.remaining_qty) as u64, ..b }),
                            Err(LedgerFault::Overflow),
                        )
                    } else {
                        (
                            with_sol(
                                v1,
                                o.user_id,
                                Balance {
                                    available: (b.available + o.remaining_qty) as u64,
                                    locked: (b.locked - o.remaining_qty) as u64,
                                },
                            ),
                            Ok(CancelOutcome::Cancelled(cancelled_of(o))),
                        )
                    }
                },
            }
        },
    }
}

/// Apply one fill to the balance ledger: the buyer pays USD from `locked`
/// and receives SOL into `available`; the seller gives SOL from `locked`
/// and receives USD into `available`.
pub fn apply_fill(state: &mut EngineState, trade: &Trade) -> (r: Result<(), LedgerFault>)
    requires
        old(state).wf(),
    ensures
        final(state).wf(),
        final(state)@ == settle_run(old(state)@, *trade).0,
        r == settle_run(old(state)@, *trade).1,
{
    let value = match trade.price.checked_mul(trade.qty) {
        Some(v) => v,
        None => return Err(LedgerFault::Overflow),
    };
    let buyer_usd = state.usd_mut(trade.buyer);
    if buyer_usd.locked < value {
        return Err(LedgerFault::Underflow);
    }
    buyer_usd.locked = buyer_usd.locked - value;
    let buyer_sol = state.sol_mut(trade.buyer);
    match buyer_sol.available.checked_add(trade.qty) {
        Some(a) => {
            buyer_sol.available = a;
        },
        None => return Err(LedgerFault::Overflow),
    }
    let seller_sol = state.sol_mut(trade.seller);
    if seller_sol.locked < trade.qty {
        return Err(LedgerFault::Underflow);
    }
    seller_sol.locked = seller_sol.locked - trade.qty;
    let seller_usd = state.usd_mut(trade.seller);
    match seller_usd.available.checked_add(value) {
        Some(a) => {
            seller_usd.available = a;
        },
        None => return Err(LedgerFault::Overflow),
    }
    Ok(())
}

/// "bid" as a `String`.
fn bid_string() -> (s: String)
    ensures
        s@ == bid_word(),
{
    let s = "bid".to_owned();
    proof {
        reveal_strlit("bid");
        assert(s@ =~= bid_word());
    }
    s
}

/// "ask" as a `String`.
fn ask_string() -> (s: String)
    ensures
        s@ == ask_word(),
{
    let s = "ask".to_owned();
    proof {
        reveal_strlit("ask");
        assert(s@ =~= ask_word());
    }
    s
}

impl EngineState {
    /// Handle an order request of `user_id`: only "sol" is traded, `side`
    /// must be "bid" or "ask", price and quantity must be positive. The
    /// payment is locked first (a bid locks `price * qty` USD, an ask locks
    /// `qty` SOL, refused if not available); then the order goes to the book
    /// and every fill is settled. The outcome names the id of the resting
    /// remainder, if any.
    pub fn place_order(&mut self, user_id: u64, asset: &String, side: &String, price: i64, qty: i64) -> (r: Result<
        OrderOutcome,
        LedgerFault,
    >)
        requires
            old(self).wf(),
        ensures
            final(self).wf(),
            final(self)@ == place_spec(old(self)@, user_id, asset@, side@, price, qty).0,
            r == place_spec(old(self)@, user_id, asset@, side@, price, qty).1,
            asset@ == sol_symbol() && side@ == bid_word() && price > 0 && qty > 0 && price * qty <= u64::MAX && usd_of(
                old(self)@,
                user_id,
            ).available >= price * qty ==> !(r matches Ok(OrderOutcome::Rejected(_))),
            asset@ == sol_symbol() && side@ == ask_word() && price > 0 && qty > 0 && price * qty <= u64::MAX && sol_of(
                old(self)@,
                user_id,
            ).available >= qty ==> !(r matches Ok(OrderOutcome::Rejected(_))),
            r matches Ok(OrderOutcome::Open(id)) ==> id == old(self)@.book.next_order_id,
    {
        proof {
            law_order_admission(self@, user_id, asset@, side@, price, qty);
            law_open_order_id(self@, user_id, asset@, side@, price, qty);
        }
        let sol = sol_string();
        if !(*asset == sol) {
            return Ok(OrderOutcome::Rejected(OrderRejection::UnsupportedAsset));
        }
        let bid = bid_string();
        let ask = ask_string();
        let side_v = if *side == bid {
            Side::Bid
        } else if *side == ask {
            Side::Ask
        } else {
            return Ok(OrderOutcome::Rejected(OrderRejection::InvalidSide));
        };
        if price <= 0 || qty <= 0 {
            return Ok(OrderOutcome::Rejected(OrderRejection::NotPositive));
        }
        let p = price as u64;
        let q = qty as u64;
        let cost = match p.checked_mul(q) {
            Some(c) => c,
            None => return Err(LedgerFault::Overflow),
        };
        match side_v {
            Side::Bid => {
                let b = self.usd_mut(user_id);
                if b.available < cost {
                    return Ok(OrderOutcome::Rejected(OrderRejection::InsufficientUsd));
                }
                let locked = match b.locked.checked_add(cost) {
                    Some(l) => l,
                    None => return Err(LedgerFault::Overflow),
                };
                b.available = b.available - cost;
                b.locked = locked;
            },
            Side::Ask => {
                let b = self.sol_mut(user_id);
                if b.available < q {
                    return Ok(OrderOutcome::Rejected(OrderRejection::InsufficientSol));
                }
                let locked = match b.locked.checked_add(q) {
                    Some(l) => l,
                    None => return Err(LedgerFault::Overflow),
                };
                b.available = b.available - q;
                b.locked = locked;
            },
        }
        self.book_and_settle(user_id, side_v, p, q)
    }

    /// Send an order whose payment is locked to the book and settle its
    /// fills.
    fn book_and_settle(&mut self, user_id: u64, side: Side, price: u64, qty: u64) -> (r: Result<
        OrderOutcome,
        LedgerFault,
    >)
        requires
            old(self).wf(),
            price > 0,
            qty > 0,
        ensures
            final(self).wf(),
            final(self)@ == book_and_settle(old(self)@, user_id, side, price, qty).0,
            r == book_and_settle(old(self)@, user_id, side, price, qty).1,
    {
        if self.sol_orderbook.next_order_id() == u64::MAX || self.sol_orderbook.order_count() == usize::MAX {
            return Err(LedgerFault::Overflow);
        }
        let ghost v0 = self@;
        let events = match self.sol_orderbook.add_order(user_id, side, price, qty) {
            Ok(e) => e,
            Err(_) => {
                proof {
                    assert(false);
                }
                return Err(LedgerFault::Overflow);
            },
        };
        let ghost v1 = self@;
        assert(v1 == (EngineView { book: placed(v0.book, user_id, side, price, qty).0, ..v0 }));
        assert(events@ == placed(v0.book, user_id, side, price, qty).1);
        let mut resting: Option<u64> = None;
        let mut i: usize = 0;
        assert(events@.skip(0) =~= events@);
        assert(events@.take(0) =~= Seq::<MatchResult>::empty());
        while i < events.len()
            invariant
                0 <= i <= events@.len(),
                self.wf(),
                self@.book == v1.book,
                v0 == old(self)@,
                v0.book.next_order_id < u64::MAX,
                v0.book.size() < usize::MAX,
                v1 == (EngineView { book: placed(v0.book, user_id, side, price, qty).0, ..v0 }),
                events@ == placed(v0.book, user_id, side, price, qty).1,
                settle_events_run(v1, events@, bid_limit(side, price)) == settle_events_run(
                    self@,
                    events@.skip(i as int),
                    bid_limit(side, price),
                ),
                resting == last_accepted(events@.take(i as int)),
            decreases events@.len() - i,
        {
            proof {
                assert(events@.skip(i as int).drop_first() =~= events@.skip(i + 1));
                assert(events@.skip(i as int)[0] == events@[i as int]);
                assert(events@.take(i + 1).drop_last() =~= events@.take(i as int));
                assert(events@.take(i + 1).last() == events@[i as int]);
            }
            match events[i] {
                MatchResult::Trade(t) => {
                    let ghost vb = self@;
                    match apply_fill(self, &t) {
                        Ok(()) => {},
                        Err(e) => {
                            assert(settle_events_run(vb, events@.skip(i as int), bid_limit(side, price)) == (
                                self@,
                                Err::<(), LedgerFault>(e),
                            ));
                            return Err(e);
                        },
                    }
                    if let Side::Bid = side {
                        let improvement = if price >= t.price {
                            match (price - t.price).checked_mul(t.qty) {
                                Some(d) => d,
                                None => {
                                    assert(settle_events_run(vb, events@.skip(i as int), bid_limit(side, price)) == (
                                        self@,
                                        Err::<(), LedgerFault>(LedgerFault::Overflow),
                                    ));
                                    return Err(LedgerFault::Overflow);
                                },
                            }
                        } else {
                            0
                        };
                        match self.release_lock(t.buyer, improvement) {
                            Ok(()) => {},
                            Err(e) => {
                                assert(settle_events_run(vb, events@.skip(i as int), bid_limit(side, price)) == (
                                    self@,
                                    Err::<(), LedgerFault>(e),
                                ));
                                return Err(e);
                            },
                        }
                    }
                },
                MatchResult::OrderAccepted(a) => {
                    resting = Some(a.order_id);
                },
            }
            i = i + 1;
        }
        assert(events@.skip(i as int) =~= Seq::<MatchResult>::empty());
        assert(events@.take(i as int) =~= events@);
        match resting {
            Some(id) => Ok(OrderOutcome::Open(id)),
            None => Ok(OrderOutcome::Filled),
        }
    }

    /// Move `amount` of `user_id`'s USD from locked back to available.
    fn release_lock(&mut self, user_id: u64, amount: u64) -> (r: Result<(), LedgerFault>)
        requires
            old(self).wf(),
        ensures
            final(self).wf(),
            final(self)@ == release_run(old(self)@, user_id, amount as int).0,
            r == release_run(old(self)@, user_id, amount as int).1,
    {
        let b = self.usd_mut(user_id);
        if b.locked < amount {
            return Err(LedgerFault::Underflow);
        }
        b.locked = b.locked - amount;
        match b.available.checked_add(amount) {
            Some(a) => {
                b.available = a;
                Ok(())
            },
            None => Err(LedgerFault::Overflow),
        }
    }

    /// Handle a cancel request: take the order off the book and give the
    /// owner back what it had locked for its remaining quantity.
    pub fn cancel(&mut self, order_id: u64, user_id: u64) -> (r: Result<CancelOutcome, LedgerFault>)
        requires
            old(self).wf(),
        ensures
            final(self).wf(),
            final(self)@ == cancel_spec(old(self)@, order_id, user_id).0,
            r == cancel_spec(old(self)@, order_id, user_id).1,
            r matches Ok(CancelOutcome::Cancelled(c)) ==> c.order_id == order_id && c.user_id == user_id && lookup(
                old(self)@.book,
                order_id,
            ) == Some(Order { order_id, user_id, side: c.side, price: c.price, remaining_qty: c.remaining_qty }),
    {
        proof {
            crate::book_laws::law_cancel_reports_the_order(self@.book, order_id);
        }
        match self.sol_orderbook.cancel_order(order_id, user_id) {
            Err(OrderbookError::OrderNotFound) => Ok(CancelOutcome::NotFound),
            Err(OrderbookError::NotOrderOwner) => Ok(CancelOutcome::NotOwner),
            Err(_) => {
                proof {
                    assert(false);
                }
                Ok(CancelOutcome::NotFound)
            },
            Ok(c) => {
                match c.side {
                    Side::Bid => {
                        let refund = match c.price.checked_mul(c.remaining_qty) {
                            Some(x) => x,
                            None => return Err(LedgerFault::Overflow),
                        };
                        let b = self.usd_mut(c.user_id);
                        if b.locked < refund {
                            return Err(LedgerFault::Underflow);
                        }
                        b.locked = b.locked - refund;
                        match b.available.checked_add(refund) {
                            Some(a) => {
                                b.available = a;
                            },
                            None => return Err(LedgerFault::Overflow),
                        }
                    },
                    Side::Ask => {
                        let b = self.sol_mut(c.user_id);
                        if b.locked < c.remaining_qty {
                            return Err(LedgerFault::Underflow);
                        }
                        b.locked = b.locked - c.remaining_qty;
                        match b.available.checked_add(c.remaining_qty) {
                            Some(a) => {
                                b.available = a;
                            },
                            None => return Err(LedgerFault::Overflow),
                        }
                    },
                }
                Ok(CancelOutcome::Cancelled(c))
            },
        }
    }

    /// The depth of the book for `asset`: the SOL book's levels (bids
    /// highest price first, asks lowest first), or no levels for any other
    /// asset.
    pub fn book_levels(&self, asset: &String) -> (r: (Vec<LevelSnapshot>, Vec<LevelSnapshot>))
        requires
            self.wf(),
            asset@ == sol_symbol() ==> depth_fits(self@.book.bids) && depth_fits(self@.book.asks),
        ensures
            asset@ != sol_symbol() ==> r.0@.len() == 0 && r.1@.len() == 0,
            asset@ == sol_symbol() ==> levels_match(r.0@, depth(self@.book.bids)) && levels_match(
                r.1@,
                depth(self@.book.asks),
            ),
    {
        let sol = sol_string();
        if !(*asset == sol) {
            return (Vec::new(), Vec::new());
        }
        let snap = self.sol_orderbook.get_state();
        (snap.bids, snap.asks)
    }

    /// Register a user: empty USD balance and empty asset table, unless
    /// they exist already.
    pub fn signup(&mut self, user_id: u64)
        requires
            old(self).wf(),
        ensures
            final(self).wf(),
            final(self)@ == (EngineView {
                usd: old(self)@.usd.insert(user_id, usd_of(old(self)@, user_id)),
                assets: old(self)@.assets.insert(user_id, assets_of(old(self)@, user_id)),
                book: old(self)@.book,
            }),
    {
        self.usd_mut(user_id);
        self.assets_mut(user_id);
    }

    /// The USD balance of `user_id` (zero if none).
    pub fn usd(&self, user_id: u64) -> (b: Balance)
        ensures
            b == usd_of(self@, user_id),
    {
        match self.usd_balance.get(&user_id) {
            Some(b) => *b,
            None => Balance { available: 0, locked: 0 },
        }
    }

    /// The asset balances of `user_id` (none if none).
    pub fn assets(&self, user_id: u64) -> (a: AssetBalances)
        requires
            self.wf(),
        ensures
            a.wf(),
            a@ == assets_of(self@, user_id),
    {
        match self.stock_balance.get(&user_id) {
            Some(t) => t.duplicate(),
            None => AssetBalances::new(),
        }
    }

    /// Add `qty` USD to the available balance of `user_id`.
    pub fn onramp(&mut self, user_id: u64, qty: u64) -> (r: Result<(), LedgerFault>)
        requires
            old(self).wf(),
        ensures
            final(self).wf(),
            usd_of(old(self)@, user_id).available + qty <= u64::MAX ==> r == Ok::<(), LedgerFault>(())
                && final(self)@ == with_usd(
                old(self)@,
                user_id,
                Balance {
                    available: (usd_of(old(self)@, user_id).available + qty) as u64,
                    ..usd_of(old(self)@, user_id)
                },
            ),
            usd_of(old(self)@, user_id).available + qty > u64::MAX ==> r == Err::<(), LedgerFault>(
                LedgerFault::Overflow,
            ) && final(self)@ == with_usd(old(self)@, user_id, usd_of(old(self)@, user_id)),
    {
        let b = self.usd_mut(user_id);
        match b.available.checked_add(qty) {
            Some(a) => {
                b.available = a;
                Ok(())
            },
            None => Err(LedgerFault::Overflow),
        }
    }

    /// Add `qty` of asset `symbol` to the available balance of `user_id`.
    pub fn deposit(&mut self, user_id: u64, symbol: &String, qty: u64) -> (r: Result<(), LedgerFault>)
        requires
            old(self).wf(),
        ensures
            final(self).wf(),
            asset_of(old(self)@, user_id, symbol@).available + qty <= u64::MAX ==> r == Ok::<(), LedgerFault>(())
                && final(self)@ == with_asset(
                old(self)@,
                user_id,
                symbol@,
                Balance {
                    available: (asset_of(old(self)@, user_id, symbol@).available + qty) as u64,
                    ..asset_of(old(self)@, user_id, symbol@)
                },
            ),
            asset_of(old(self)@, user_id, symbol@).available + qty > u64::MAX ==> r == Err::<(), LedgerFault>(
                LedgerFault::Overflow,
            ) && final(self)@ == with_asset(old(self)@, user_id, symbol@, asset_of(old(self)@, user_id, symbol@)),
    {
        let b = self.asset_mut(user_id, symbol);
        match b.available.checked_add(qty) {
            Some(a) => {
                b.available = a;
                Ok(())
            },
            None => Err(LedgerFault::Overflow),
        }
    }
}

} // verus!
