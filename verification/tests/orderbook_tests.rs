use cex_engine::orderbook::{MatchResult, Orderbook, OrderbookError, Side};

fn book() -> Orderbook {
    Orderbook::new("SOL-USDT")
}

#[test]
fn bid_rests_when_no_asks() {
    let mut b = book();
    let r = b.add_order(1, Side::Bid, 100, 10).unwrap();
    assert_eq!(r.len(), 1);
    assert!(matches!(r[0], MatchResult::OrderAccepted(_)));
    assert_eq!(b.best_bid(), Some(100));
    assert_eq!(b.best_ask(), None);
}

#[test]
fn ask_rests_when_no_bids() {
    let mut b = book();
    b.add_order(1, Side::Ask, 110, 10).unwrap();
    assert_eq!(b.best_ask(), Some(110));
    assert_eq!(b.best_bid(), None);
}

#[test]
fn exact_match() {
    let mut b = book();
    b.add_order(1, Side::Ask, 100, 10).unwrap();
    let r = b.add_order(2, Side::Bid, 100, 10).unwrap();
    assert_eq!(r.len(), 1);
    match r[0] {
        MatchResult::Trade(t) => {
            assert_eq!(t.buyer, 2);
            assert_eq!(t.seller, 1);
            assert_eq!(t.price, 100);
            assert_eq!(t.qty, 10);
        }
        _ => panic!("expected trade"),
    }
    assert_eq!(b.order_count(), 0);
    assert_eq!(b.best_bid(), None);
    assert_eq!(b.best_ask(), None);
}

#[test]
fn partial_fill_maker_partially_consumed() {
    let mut b = book();
    b.add_order(1, Side::Ask, 100, 10).unwrap();
    let r = b.add_order(2, Side::Bid, 100, 4).unwrap();
    assert_eq!(r.len(), 1);
    assert_eq!(b.get_order(1).unwrap().remaining_qty, 6);
    assert_eq!(b.order_count(), 1);
}

#[test]
fn incoming_order_fills_multiple_makers() {
    let mut b = book();
    b.add_order(1, Side::Ask, 100, 5).unwrap();
    b.add_order(2, Side::Ask, 100, 5).unwrap();
    let r = b.add_order(3, Side::Bid, 100, 8).unwrap();
    assert_eq!(r.len(), 2); // 2 fills, 3rd user doesn't rest
    match r[0] { MatchResult::Trade(t) => { assert_eq!(t.seller, 1); assert_eq!(t.qty, 5); } _ => panic!() }
    match r[1] { MatchResult::Trade(t) => { assert_eq!(t.seller, 2); assert_eq!(t.qty, 3); } _ => panic!() }
    assert_eq!(b.get_order(2).unwrap().remaining_qty, 2);
}

#[test]
fn preserves_fifo_at_same_price() {
    let mut b = book();
    b.add_order(1, Side::Ask, 100, 5).unwrap();
    b.add_order(2, Side::Ask, 100, 5).unwrap();
    b.add_order(3, Side::Ask, 100, 5).unwrap();
    let r = b.add_order(4, Side::Bid, 100, 5).unwrap();
    match r[0] { MatchResult::Trade(t) => assert_eq!(t.seller, 1), _ => panic!() }
    assert!(b.get_order(1).is_none());
    assert_eq!(b.get_order(2).unwrap().remaining_qty, 5);
}

#[test]
fn matches_best_price_first() {
    let mut b = book();
    b.add_order(1, Side::Ask, 102, 5).unwrap();
    b.add_order(2, Side::Ask, 100, 5).unwrap();
    let r = b.add_order(3, Side::Bid, 105, 5).unwrap();
    match r[0] { MatchResult::Trade(t) => { assert_eq!(t.price, 100); assert_eq!(t.seller, 2); } _ => panic!() }
    assert_eq!(b.best_ask(), Some(102));
}

#[test]
fn non_crossing_order_rests() {
    let mut b = book();
    b.add_order(1, Side::Ask, 110, 10).unwrap();
    let r = b.add_order(2, Side::Bid, 100, 10).unwrap();
    assert_eq!(r.len(), 1);
    assert_eq!(b.best_bid(), Some(100));
    assert_eq!(b.best_ask(), Some(110));
    assert_eq!(b.order_count(), 2);
}

#[test]
fn cancel_bid() {
    let mut b = book();
    b.add_order(1, Side::Bid, 100, 10).unwrap();
    let c = b.cancel_order(1, 1).unwrap();
    assert_eq!(c.order_id, 1);
    assert_eq!(c.remaining_qty, 10);
    assert_eq!(b.order_count(), 0);
    assert_eq!(b.best_bid(), None);
}

#[test]
fn cannot_cancel_others_order() {
    let mut b = book();
    b.add_order(1, Side::Bid, 100, 10).unwrap();
    assert_eq!(b.cancel_order(1, 999), Err(OrderbookError::NotOrderOwner));
    assert!(b.get_order(1).is_some());
}

#[test]
fn cannot_cancel_nonexistent() {
    let mut b = book();
    assert_eq!(b.cancel_order(999, 1), Err(OrderbookError::OrderNotFound));
}

#[test]
fn rejects_zero_price() {
    let mut b = book();
    assert_eq!(b.add_order(1, Side::Bid, 0, 10), Err(OrderbookError::InvalidPrice));
}

#[test]
fn rejects_zero_qty() {
    let mut b = book();
    assert_eq!(b.add_order(1, Side::Bid, 100, 0), Err(OrderbookError::InvalidQuantity));
}

#[test]
fn partial_taker_rests_remainder() {
    let mut b = book();
    b.add_order(1, Side::Ask, 100, 5).unwrap();
    let r = b.add_order(2, Side::Bid, 100, 8).unwrap();
    assert_eq!(r.len(), 2); // trade + resting
    match r[1] {
        MatchResult::OrderAccepted(o) => {
            assert_eq!(o.order_id, 2);
            assert_eq!(o.remaining_qty, 3);
        }
        _ => panic!("expected resting order"),
    }
    assert_eq!(b.best_bid(), Some(100));
    assert_eq!(b.best_ask(), None);
    assert_eq!(b.get_order(2).unwrap().remaining_qty, 3);
}

#[test]
fn get_user_orders_filtered() {
    let mut b = book();
    b.add_order(1, Side::Bid, 100, 5).unwrap();
    b.add_order(2, Side::Bid, 100, 3).unwrap();
    let orders = b.get_user_orders(1);
    assert_eq!(orders.len(), 1);
    assert_eq!(orders[0].user_id, 1);
    assert_eq!(orders[0].remaining_qty, 5);
}

#[test]
fn get_user_orders_remaining_qty_after_partial_fill() {
    let mut b = book();
    // user 1 bids 10 units
    b.add_order(1, Side::Bid, 100, 10).unwrap();
    // user 2 sells 4 — partial fill of user 1's bid
    b.add_order(2, Side::Ask, 100, 4).unwrap();
    let orders = b.get_user_orders(1);
    assert_eq!(orders.len(), 1);
    assert_eq!(orders[0].remaining_qty, 6); // 10 - 4
}

#[test]
fn cancel_undoes_a_fresh_rest() {
    let mut b = book();
    b.add_order(1, Side::Bid, 100, 5).unwrap();
    b.add_order(2, Side::Ask, 110, 5).unwrap();
    let before = (b.best_bid(), b.best_ask(), b.order_count(), b.bid_levels(), b.ask_levels());
    let r = b.add_order(3, Side::Bid, 105, 2).unwrap();
    assert_eq!(r.len(), 1);
    b.cancel_order(3, 3).unwrap();
    assert_eq!((b.best_bid(), b.best_ask(), b.order_count(), b.bid_levels(), b.ask_levels()), before);
    assert!(b.get_order(3).is_none());
    assert_eq!(b.next_order_id(), 4);
}

#[test]
fn quantity_is_conserved() {
    let mut b = book();
    b.add_order(1, Side::Ask, 100, 3).unwrap();
    b.add_order(2, Side::Ask, 101, 4).unwrap();
    b.add_order(3, Side::Ask, 120, 4).unwrap();
    let r = b.add_order(4, Side::Bid, 110, 10).unwrap();
    let mut total = 0;
    for e in &r {
        total += match e {
            MatchResult::Trade(t) => t.qty,
            MatchResult::OrderAccepted(a) => a.remaining_qty,
        };
    }
    assert_eq!(total, 10);
    assert_eq!(r.len(), 3);
    // trades at the makers' prices, never above the limit
    match r[0] { MatchResult::Trade(t) => assert_eq!((t.price, t.qty, t.maker_order_id), (100, 3, 1)), _ => panic!() }
    match r[1] { MatchResult::Trade(t) => assert_eq!((t.price, t.qty, t.maker_order_id), (101, 4, 2)), _ => panic!() }
    match r[2] { MatchResult::OrderAccepted(a) => assert_eq!((a.price, a.remaining_qty), (110, 3)), _ => panic!() }
    // the book is not crossed
    assert!(b.best_bid().unwrap() < b.best_ask().unwrap());
}

#[test]
fn levels_and_state() {
    let mut b = book();
    b.add_order(1, Side::Bid, 100, 5).unwrap();
    b.add_order(2, Side::Bid, 100, 3).unwrap();
    b.add_order(3, Side::Bid, 98, 1).unwrap();
    b.add_order(4, Side::Ask, 103, 2).unwrap();
    b.add_order(5, Side::Ask, 101, 6).unwrap();
    assert_eq!(b.bid_levels(), 2);
    assert_eq!(b.ask_levels(), 2);
    assert!(b.depth_fits());
    let st = b.get_state();
    assert_eq!(st.symbol, "SOL-USDT");
    assert_eq!(st.bids.iter().map(|l| (l.price, l.qty)).collect::<Vec<_>>(), vec![(100, 8), (98, 1)]);
    assert_eq!(st.asks.iter().map(|l| (l.price, l.qty)).collect::<Vec<_>>(), vec![(101, 6), (103, 2)]);
}

#[test]
fn depth_overflow_is_detected() {
    let mut b = book();
    b.add_order(1, Side::Ask, 100, u64::MAX).unwrap();
    b.add_order(2, Side::Ask, 100, 1).unwrap();
    assert!(!b.depth_fits());
}

#[test]
fn reset_starts_ids_again() {
    let mut b = book();
    b.add_order(1, Side::Bid, 100, 5).unwrap();
    b.reset();
    assert_eq!(b.order_count(), 0);
    let r = b.add_order(1, Side::Ask, 100, 5).unwrap();
    match r[0] { MatchResult::OrderAccepted(a) => assert_eq!(a.order_id, 1), _ => panic!() }
}

#[test]
fn user_orders_list_bids_then_asks() {
    let mut b = book();
    b.add_order(1, Side::Ask, 110, 1).unwrap();
    b.add_order(1, Side::Bid, 90, 2).unwrap();
    b.add_order(2, Side::Bid, 95, 2).unwrap();
    let o = b.get_user_orders(1);
    assert_eq!(o.len(), 2);
    assert_eq!((o[0].side, o[0].order_id), (Side::Bid, 2));
    assert_eq!((o[1].side, o[1].order_id), (Side::Ask, 1));
}

#[test]
fn sweep_prices_get_worse_for_the_taker() {
    let mut b = book();
    b.add_order(1, Side::Ask, 103, 1).unwrap();
    b.add_order(1, Side::Ask, 101, 1).unwrap();
    b.add_order(1, Side::Ask, 102, 1).unwrap();
    let r = b.add_order(2, Side::Bid, 105, 3).unwrap();
    let prices: Vec<u64> = r
        .iter()
        .filter_map(|e| match e {
            MatchResult::Trade(t) => Some(t.price),
            _ => None,
        })
        .collect();
    assert_eq!(prices, vec![101, 102, 103]);

    let mut b = book();
    b.add_order(1, Side::Bid, 97, 1).unwrap();
    b.add_order(1, Side::Bid, 99, 1).unwrap();
    b.add_order(1, Side::Bid, 98, 1).unwrap();
    let r = b.add_order(2, Side::Ask, 90, 3).unwrap();
    let prices: Vec<u64> = r
        .iter()
        .filter_map(|e| match e {
            MatchResult::Trade(t) => Some(t.price),
            _ => None,
        })
        .collect();
    assert_eq!(prices, vec![99, 98, 97]);
}

#[test]
fn depth_levels_are_ordered_and_first_is_best() {
    let mut b = book();
    b.add_order(1, Side::Bid, 99, 2).unwrap();
    b.add_order(1, Side::Bid, 100, 3).unwrap();
    b.add_order(2, Side::Bid, 99, 4).unwrap();
    b.add_order(1, Side::Ask, 105, 1).unwrap();
    b.add_order(2, Side::Ask, 103, 5).unwrap();
    let st = b.get_state();
    let bids: Vec<(u64, u64)> = st.bids.iter().map(|l| (l.price, l.qty)).collect();
    let asks: Vec<(u64, u64)> = st.asks.iter().map(|l| (l.price, l.qty)).collect();
    assert_eq!(bids, vec![(100, 3), (99, 6)]);
    assert_eq!(asks, vec![(103, 5), (105, 1)]);
    assert_eq!(Some(st.bids[0].price), b.best_bid());
    assert_eq!(Some(st.asks[0].price), b.best_ask());
    assert_eq!(st.bids.len(), b.bid_levels());
    assert_eq!(st.asks.len(), b.ask_levels());
}

#[test]
fn makers_lose_what_they_traded() {
    let mut b = book();
    b.add_order(1, Side::Ask, 100, 10).unwrap();
    b.add_order(1, Side::Ask, 101, 5).unwrap();
    b.add_order(3, Side::Ask, 102, 7).unwrap();
    b.add_order(2, Side::Bid, 101, 12).unwrap();
    assert!(b.get_order(1).is_none());
    assert_eq!(b.get_order(2).map(|o| o.remaining_qty), Some(3));
    assert_eq!(b.get_order(3).map(|o| o.remaining_qty), Some(7));
    assert_eq!(b.best_ask(), Some(101));
    assert_eq!(b.best_bid(), None);
    assert_eq!(b.order_count(), 2);
}
