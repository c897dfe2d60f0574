use cex_engine::engine::{apply_fill, CancelOutcome, LedgerFault, OrderOutcome, OrderRejection};
use cex_engine::ledger::Balance;
use cex_engine::orderbook::{Side, Trade};
use cex_engine::state::EngineState;

fn s(x: &str) -> String {
    x.to_string()
}

fn bal(available: u64, locked: u64) -> Balance {
    Balance { available, locked }
}

fn sol_of(st: &EngineState, user: u64) -> Balance {
    st.assets(user).get(&s("sol")).unwrap_or(bal(0, 0))
}

/// Two funded users: 1 has USD, 2 has SOL.
fn funded() -> EngineState {
    let mut st = EngineState::new();
    st.signup(1);
    st.signup(2);
    st.onramp(1, 10_000).unwrap();
    st.deposit(2, &s("sol"), 100).unwrap();
    st
}

#[test]
fn signup_creates_zero_balances() {
    let mut st = EngineState::new();
    st.signup(7);
    assert_eq!(st.usd(7), bal(0, 0));
    assert_eq!(st.assets(7).len(), 0);
    assert!(st.usd_balance.contains_key(&7));
    assert!(st.stock_balance.contains_key(&7));
}

#[test]
fn signup_keeps_existing_balances() {
    let mut st = funded();
    st.signup(1);
    assert_eq!(st.usd(1), bal(10_000, 0));
}

#[test]
fn onramp_and_deposit_credit_available() {
    let mut st = EngineState::new();
    st.onramp(3, 50).unwrap();
    st.onramp(3, 25).unwrap();
    st.deposit(3, &s("btc"), 4).unwrap();
    assert_eq!(st.usd(3), bal(75, 0));
    assert_eq!(st.assets(3).get(&s("btc")), Some(bal(4, 0)));
    assert_eq!(st.assets(3).get(&s("sol")), None);
}

#[test]
fn onramp_overflow_is_reported() {
    let mut st = EngineState::new();
    st.onramp(1, u64::MAX).unwrap();
    assert_eq!(st.onramp(1, 1), Err(LedgerFault::Overflow));
}

#[test]
fn rejections_carry_message_and_status() {
    let mut st = funded();
    assert_eq!(
        st.place_order(1, &s("btc"), &s("bid"), 10, 1),
        Ok(OrderOutcome::Rejected(OrderRejection::UnsupportedAsset))
    );
    assert_eq!(
        st.place_order(1, &s("sol"), &s("buy"), 10, 1),
        Ok(OrderOutcome::Rejected(OrderRejection::InvalidSide))
    );
    assert_eq!(
        st.place_order(1, &s("sol"), &s("bid"), 0, 1),
        Ok(OrderOutcome::Rejected(OrderRejection::NotPositive))
    );
    assert_eq!(
        st.place_order(1, &s("sol"), &s("bid"), 10, -3),
        Ok(OrderOutcome::Rejected(OrderRejection::NotPositive))
    );
    assert_eq!(
        st.place_order(1, &s("sol"), &s("bid"), 1_000, 11),
        Ok(OrderOutcome::Rejected(OrderRejection::InsufficientUsd))
    );
    assert_eq!(
        st.place_order(1, &s("sol"), &s("ask"), 10, 1),
        Ok(OrderOutcome::Rejected(OrderRejection::InsufficientSol))
    );
    assert_eq!(OrderRejection::UnsupportedAsset.message(), "Only SOL orders are supported");
    assert_eq!(OrderRejection::InvalidSide.message(), "side must be bid or ask");
    assert_eq!(OrderRejection::NotPositive.message(), "price and qty must be positive numbers");
    assert_eq!(OrderRejection::InsufficientUsd.message(), "Insufficient USD");
    assert_eq!(OrderRejection::InsufficientSol.message(), "Insufficient SOL");
    assert_eq!(OrderRejection::NotPositive.status_code(), 500);
    assert_eq!(OrderRejection::InsufficientUsd.status_code(), 400);
    // nothing moved
    assert_eq!(st.usd(1), bal(10_000, 0));
    assert_eq!(sol_of(&st, 2), bal(100, 0));
    assert_eq!(st.sol_orderbook.order_count(), 0);
}

#[test]
fn cost_overflow_is_reported() {
    let mut st = funded();
    assert_eq!(st.place_order(1, &s("sol"), &s("bid"), i64::MAX, 3), Err(LedgerFault::Overflow));
}

#[test]
fn bid_locks_price_times_qty() {
    let mut st = funded();
    assert_eq!(st.place_order(1, &s("sol"), &s("bid"), 100, 10), Ok(OrderOutcome::Open(1)));
    assert_eq!(st.usd(1), bal(9_000, 1_000));
    assert_eq!(st.sol_orderbook.best_bid(), Some(100));
}

#[test]
fn ask_locks_qty() {
    let mut st = funded();
    assert_eq!(st.place_order(2, &s("sol"), &s("ask"), 100, 30), Ok(OrderOutcome::Open(1)));
    assert_eq!(sol_of(&st, 2), bal(70, 30));
}

#[test]
fn fill_settles_both_sides() {
    let mut st = funded();
    st.place_order(2, &s("sol"), &s("ask"), 100, 30).unwrap();
    assert_eq!(st.place_order(1, &s("sol"), &s("bid"), 100, 30), Ok(OrderOutcome::Filled));
    assert_eq!(st.usd(1), bal(7_000, 0));
    assert_eq!(sol_of(&st, 1), bal(30, 0));
    assert_eq!(st.usd(2), bal(3_000, 0));
    assert_eq!(sol_of(&st, 2), bal(70, 0));
    assert_eq!(st.sol_orderbook.order_count(), 0);
}

#[test]
fn taker_bid_pays_maker_price_and_gets_the_rest_back() {
    let mut st = funded();
    st.place_order(2, &s("sol"), &s("ask"), 100, 10).unwrap();
    // bid at 105 for 10: locks 1050, pays 1000 at the maker's price, 50 goes back
    assert_eq!(st.place_order(1, &s("sol"), &s("bid"), 105, 10), Ok(OrderOutcome::Filled));
    assert_eq!(st.usd(1), bal(9_000, 0));
    assert_eq!(st.usd(2), bal(1_000, 0));
    assert_eq!(sol_of(&st, 1), bal(10, 0));
}

#[test]
fn partial_fill_rests_remainder() {
    let mut st = funded();
    st.place_order(2, &s("sol"), &s("ask"), 100, 5).unwrap();
    assert_eq!(st.place_order(1, &s("sol"), &s("bid"), 100, 8), Ok(OrderOutcome::Open(2)));
    assert_eq!(st.usd(1), bal(9_200, 300));
    assert_eq!(st.sol_orderbook.get_order(2).unwrap().remaining_qty, 3);
}

#[test]
fn cancel_bid_refunds_usd() {
    let mut st = funded();
    st.place_order(1, &s("sol"), &s("bid"), 100, 10).unwrap();
    match st.cancel(1, 1) {
        Ok(CancelOutcome::Cancelled(c)) => {
            assert_eq!(c.order_id, 1);
            assert_eq!(c.remaining_qty, 10);
            assert_eq!(c.side, Side::Bid);
        }
        other => panic!("unexpected {:?}", other),
    }
    assert_eq!(st.usd(1), bal(10_000, 0));
    assert_eq!(st.sol_orderbook.order_count(), 0);
}

#[test]
fn cancel_ask_refunds_sol() {
    let mut st = funded();
    st.place_order(2, &s("sol"), &s("ask"), 120, 40).unwrap();
    assert!(matches!(st.cancel(1, 2), Ok(CancelOutcome::Cancelled(_))));
    assert_eq!(sol_of(&st, 2), bal(100, 0));
}

#[test]
fn cancel_errors() {
    let mut st = funded();
    st.place_order(1, &s("sol"), &s("bid"), 100, 10).unwrap();
    assert_eq!(st.cancel(9, 1), Ok(CancelOutcome::NotFound));
    assert_eq!(st.cancel(1, 2), Ok(CancelOutcome::NotOwner));
    assert_eq!(st.usd(1), bal(9_000, 1_000));
}

#[test]
fn apply_fill_moves_funds() {
    let mut st = EngineState::new();
    st.usd_mut(1).locked = 500;
    st.sol_mut(2).locked = 5;
    let t = Trade { buyer: 1, seller: 2, price: 100, qty: 5, taker_order_id: 2, maker_order_id: 1 };
    assert_eq!(apply_fill(&mut st, &t), Ok(()));
    assert_eq!(st.usd(1), bal(0, 0));
    assert_eq!(sol_of(&st, 1), bal(5, 0));
    assert_eq!(st.usd(2), bal(500, 0));
    assert_eq!(sol_of(&st, 2), bal(0, 0));
}

#[test]
fn apply_fill_underflow_is_reported() {
    let mut st = EngineState::new();
    let t = Trade { buyer: 1, seller: 2, price: 100, qty: 5, taker_order_id: 2, maker_order_id: 1 };
    assert_eq!(apply_fill(&mut st, &t), Err(LedgerFault::Underflow));
}

#[test]
fn book_levels_only_for_sol() {
    let mut st = funded();
    st.place_order(1, &s("sol"), &s("bid"), 100, 3).unwrap();
    st.place_order(1, &s("sol"), &s("bid"), 100, 4).unwrap();
    st.place_order(1, &s("sol"), &s("bid"), 99, 1).unwrap();
    st.place_order(2, &s("sol"), &s("ask"), 101, 2).unwrap();
    let (bids, asks) = st.book_levels(&s("sol"));
    assert_eq!(bids.len(), 2);
    assert_eq!((bids[0].price, bids[0].qty), (100, 7));
    assert_eq!((bids[1].price, bids[1].qty), (99, 1));
    assert_eq!(asks.len(), 1);
    assert_eq!((asks[0].price, asks[0].qty), (101, 2));
    let (b2, a2) = st.book_levels(&s("eth"));
    assert!(b2.is_empty() && a2.is_empty());
}

#[test]
fn reset_wipes_everything() {
    let mut st = funded();
    st.place_order(1, &s("sol"), &s("bid"), 100, 3).unwrap();
    st.reset();
    assert_eq!(st.usd(1), bal(0, 0));
    assert_eq!(st.assets(2).len(), 0);
    assert_eq!(st.sol_orderbook.order_count(), 0);
    assert_eq!(st.sol_orderbook.next_order_id(), 1);
}

#[test]
fn side_names() {
    assert_eq!(Side::Bid.name(), "bid");
    assert_eq!(Side::Ask.name(), "ask");
}

#[test]
fn locks_equal_open_orders_through_a_session() {
    // lock-first: locked USD is exactly what the resting bids need, locked SOL exactly the resting asks
    let mut st = funded();
    st.place_order(1, &s("sol"), &s("bid"), 100, 20).unwrap();
    st.place_order(2, &s("sol"), &s("ask"), 98, 15).unwrap();
    st.place_order(2, &s("sol"), &s("ask"), 101, 10).unwrap();
    st.place_order(1, &s("sol"), &s("bid"), 102, 4).unwrap();
    let mut bid_value = 0u64;
    let mut ask_qty = 0u64;
    for o in st.sol_orderbook.get_user_orders(1) {
        if o.side == Side::Bid { bid_value += o.price * o.remaining_qty; }
    }
    for o in st.sol_orderbook.get_user_orders(2) {
        if o.side == Side::Ask { ask_qty += o.remaining_qty; }
    }
    assert_eq!(st.usd(1).locked, bid_value);
    assert_eq!(sol_of(&st, 2).locked, ask_qty);
    // total USD and SOL are conserved
    assert_eq!(st.usd(1).available + st.usd(1).locked + st.usd(2).available + st.usd(2).locked, 10_000);
    let s1 = sol_of(&st, 1);
    let s2 = sol_of(&st, 2);
    assert_eq!(s1.available + s1.locked + s2.available + s2.locked, 100);
}

#[test]
fn bid_filled_below_limit_releases_the_difference() {
    let mut st = EngineState::new();
    st.onramp(1, 1000).unwrap();
    st.deposit(2, &s("sol"), 5).unwrap();
    assert_eq!(st.place_order(2, &s("sol"), &s("ask"), 100, 5), Ok(OrderOutcome::Open(1)));
    assert_eq!(st.place_order(1, &s("sol"), &s("bid"), 105, 5), Ok(OrderOutcome::Filled));
    assert_eq!(st.usd(1), bal(500, 0));
    assert_eq!(sol_of(&st, 1), bal(5, 0));
    assert_eq!(st.usd(2), bal(500, 0));
    assert_eq!(sol_of(&st, 2), bal(0, 0));
}

#[test]
fn partially_filled_bid_keeps_only_its_rest_locked() {
    let mut st = funded();
    st.place_order(2, &s("sol"), &s("ask"), 90, 4).unwrap();
    // bid 100 x 10: 4 fill at 90 (360 paid, 40 back), 6 rest at 100 (600 locked)
    assert_eq!(st.place_order(1, &s("sol"), &s("bid"), 100, 10), Ok(OrderOutcome::Open(2)));
    assert_eq!(st.usd(1), bal(9_040, 600));
    assert!(matches!(st.cancel(2, 1), Ok(CancelOutcome::Cancelled(_))));
    assert_eq!(st.usd(1), bal(9_640, 0));
}

#[test]
fn new_engine_trades_sol_usdt() {
    let st = EngineState::new();
    assert!(st.usd_balance.is_empty() && st.stock_balance.is_empty());
    assert_eq!(st.sol_orderbook.get_state().symbol, "SOL-USDT");
    assert_eq!(st.sol_orderbook.order_count(), 0);
}

#[test]
fn order_request_moves_funds_between_traders_only() {
    let mut st = funded();
    st.onramp(3, 50).unwrap();
    st.place_order(2, &s("sol"), &s("ask"), 95, 3).unwrap();
    st.place_order(2, &s("sol"), &s("ask"), 97, 3).unwrap();
    // bid 100 x 5 trades 3 at 95 and 2 at 97: the buyer pays 479, the seller gets 479
    assert_eq!(st.place_order(1, &s("sol"), &s("bid"), 100, 5), Ok(OrderOutcome::Filled));
    let u1 = st.usd(1);
    let u2 = st.usd(2);
    assert_eq!(u1.available + u1.locked, 10_000 - 479);
    assert_eq!(u2.available + u2.locked, 479);
    assert_eq!(u1, bal(10_000 - 479, 0));
    let s1 = sol_of(&st, 1);
    let s2 = sol_of(&st, 2);
    assert_eq!(s1.available + s1.locked, 5);
    assert_eq!(s2.available + s2.locked, 95);
    assert_eq!(s2, bal(94, 1));
    assert_eq!(st.usd(3), bal(50, 0));
}
