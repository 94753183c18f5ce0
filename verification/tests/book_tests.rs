use orderbook::book::OrderBook;
use orderbook::order::{Fill, OrderBookError, Side};

fn fill(resting: u64, incoming: u64, price: u64, quantity: u64) -> Fill {
    Fill { resting_order_id: resting, incoming_order_id: incoming, price, quantity }
}

#[test]
fn empty_book_has_no_top() {
    let ob = OrderBook::new();
    assert_eq!(ob.best_bid(), None);
    assert_eq!(ob.best_ask(), None);
    assert_eq!(ob.depth_at(Side::Buy, 100), None);
    assert_eq!(ob.depth_at(Side::Sell, 100), None);
}

#[test]
fn scenario_resting_sell_crossed_by_buy() {
    // Resting sell 20@400, then buy 10@500: one fill of 10 at the resting
    // price 400; the buy is fully filled and the sell keeps 10 at 400.
    let mut ob = OrderBook::new();
    let fills = ob.submit_limit_order(Side::Sell, 20, 400, 2).unwrap();
    assert!(fills.is_empty());
    let fills = ob.submit_limit_order(Side::Buy, 10, 500, 1).unwrap();
    assert_eq!(fills, vec![fill(2, 1, 400, 10)]);
    assert_eq!(ob.best_bid(), None);
    assert_eq!(ob.best_ask(), Some((400, 10)));
    assert_eq!(ob.depth_at(Side::Sell, 400), Some((1, 10, 4000)));
}

#[test]
fn scenario_fifo_split_across_two_resting_orders() {
    // Sells A then B, both 5@100; buy 7@100 fills A for 5, then B for 2,
    // and B remains resting with 3 shares.
    let mut ob = OrderBook::new();
    ob.submit_limit_order(Side::Sell, 5, 100, 10).unwrap();
    ob.submit_limit_order(Side::Sell, 5, 100, 11).unwrap();
    let fills = ob.submit_limit_order(Side::Buy, 7, 100, 12).unwrap();
    assert_eq!(fills, vec![fill(10, 12, 100, 5), fill(11, 12, 100, 2)]);
    assert_eq!(ob.depth_at(Side::Sell, 100), Some((1, 3, 300)));
    assert_eq!(ob.best_ask(), Some((100, 3)));
}

#[test]
fn scenario_cancel_only_order_removes_level() {
    let mut ob = OrderBook::new();
    ob.submit_limit_order(Side::Buy, 10, 50, 1).unwrap();
    assert_eq!(ob.best_bid(), Some((50, 10)));
    ob.cancel_order(1).unwrap();
    assert_eq!(ob.depth_at(Side::Buy, 50), None);
    assert_eq!(ob.best_bid(), None);
}

#[test]
fn fifo_within_a_level_is_submission_order() {
    let mut ob = OrderBook::new();
    ob.submit_limit_order(Side::Sell, 1, 100, 1).unwrap();
    ob.submit_limit_order(Side::Sell, 1, 100, 2).unwrap();
    ob.submit_limit_order(Side::Sell, 1, 100, 3).unwrap();
    let fills = ob.submit_limit_order(Side::Buy, 2, 100, 9).unwrap();
    assert_eq!(fills, vec![fill(1, 9, 100, 1), fill(2, 9, 100, 1)]);
    assert_eq!(ob.depth_at(Side::Sell, 100), Some((1, 1, 100)));
}

#[test]
fn price_priority_best_ask_first() {
    let mut ob = OrderBook::new();
    ob.submit_limit_order(Side::Sell, 5, 105, 1).unwrap();
    ob.submit_limit_order(Side::Sell, 5, 100, 2).unwrap();
    let fills = ob.submit_limit_order(Side::Buy, 8, 200, 3).unwrap();
    assert_eq!(fills, vec![fill(2, 3, 100, 5), fill(1, 3, 105, 3)]);
    assert_eq!(ob.best_ask(), Some((105, 2)));
}

#[test]
fn price_priority_best_bid_first() {
    let mut ob = OrderBook::new();
    ob.submit_limit_order(Side::Buy, 5, 95, 1).unwrap();
    ob.submit_limit_order(Side::Buy, 5, 100, 2).unwrap();
    let fills = ob.submit_limit_order(Side::Sell, 8, 1, 3).unwrap();
    assert_eq!(fills, vec![fill(2, 3, 100, 5), fill(1, 3, 95, 3)]);
    assert_eq!(ob.best_bid(), Some((95, 2)));
}

#[test]
fn limit_stops_matching_at_uneconomical_price() {
    // The buy's limit of 100 admits the 100 level but not the 105 level;
    // the remainder rests on the bid side.
    let mut ob = OrderBook::new();
    ob.submit_limit_order(Side::Sell, 5, 105, 1).unwrap();
    ob.submit_limit_order(Side::Sell, 5, 100, 2).unwrap();
    let fills = ob.submit_limit_order(Side::Buy, 8, 100, 3).unwrap();
    assert_eq!(fills, vec![fill(2, 3, 100, 5)]);
    assert_eq!(ob.best_bid(), Some((100, 3)));
    assert_eq!(ob.best_ask(), Some((105, 5)));
}

#[test]
fn best_bid_is_highest_resting_buy_price() {
    let mut ob = OrderBook::new();
    let prices = [70u64, 90, 40, 80, 60];
    let mut best = 0u64;
    for (k, p) in prices.iter().enumerate() {
        ob.submit_limit_order(Side::Buy, 1, *p, k as u64 + 1).unwrap();
        if *p > best {
            best = *p;
        }
        assert_eq!(ob.best_bid().unwrap().0, best);
    }
    // Cancel the current best; the next-highest becomes best.
    ob.cancel_order(2).unwrap();
    assert_eq!(ob.best_bid().unwrap().0, 80);
}

#[test]
fn best_ask_is_lowest_resting_sell_price() {
    let mut ob = OrderBook::new();
    ob.submit_limit_order(Side::Sell, 1, 70, 1).unwrap();
    ob.submit_limit_order(Side::Sell, 1, 30, 2).unwrap();
    ob.submit_limit_order(Side::Sell, 1, 50, 3).unwrap();
    assert_eq!(ob.best_ask().unwrap().0, 30);
    ob.cancel_order(2).unwrap();
    assert_eq!(ob.best_ask().unwrap().0, 50);
}

#[test]
fn submit_then_cancel_restores_prior_state() {
    let mut ob = OrderBook::new();
    ob.submit_limit_order(Side::Buy, 4, 90, 1).unwrap();
    ob.submit_limit_order(Side::Buy, 6, 90, 2).unwrap();
    ob.submit_limit_order(Side::Sell, 3, 120, 3).unwrap();
    let bid_before = ob.best_bid();
    let ask_before = ob.best_ask();
    let depth_before = ob.depth_at(Side::Buy, 90);
    // A non-crossing buy at a fresh price, then its cancel.
    ob.submit_limit_order(Side::Buy, 7, 95, 99).unwrap();
    assert_eq!(ob.best_bid(), Some((95, 7)));
    ob.cancel_order(99).unwrap();
    assert_eq!(ob.best_bid(), bid_before);
    assert_eq!(ob.best_ask(), ask_before);
    assert_eq!(ob.depth_at(Side::Buy, 90), depth_before);
    assert_eq!(ob.depth_at(Side::Buy, 95), None);
    // The same at an existing price: queue length returns to 2.
    ob.submit_limit_order(Side::Buy, 9, 90, 98).unwrap();
    assert_eq!(ob.depth_at(Side::Buy, 90), Some((3, 19, 1710)));
    ob.cancel_order(98).unwrap();
    assert_eq!(ob.depth_at(Side::Buy, 90), depth_before);
}

#[test]
fn partial_fill_decrements_resting_shares() {
    let mut ob = OrderBook::new();
    ob.submit_limit_order(Side::Sell, 10, 100, 1).unwrap();
    let fills = ob.submit_limit_order(Side::Buy, 4, 100, 2).unwrap();
    assert_eq!(fills, vec![fill(1, 2, 100, 4)]);
    assert_eq!(ob.depth_at(Side::Sell, 100), Some((1, 6, 600)));
}

#[test]
fn conservation_of_traded_volume() {
    let mut ob = OrderBook::new();
    ob.submit_limit_order(Side::Sell, 3, 100, 1).unwrap();
    ob.submit_limit_order(Side::Sell, 4, 101, 2).unwrap();
    ob.submit_limit_order(Side::Sell, 5, 102, 3).unwrap();
    let submitted = 9u64;
    let fills = ob.submit_limit_order(Side::Buy, submitted, 102, 4).unwrap();
    let traded: u64 = fills.iter().map(|f| f.quantity).sum();
    assert_eq!(traded, 9);
    // Fully filled: nothing rests on the bid side.
    assert_eq!(ob.best_bid(), None);
    // The resting side lost exactly the traded volume: 12 - 9 = 3 left.
    assert_eq!(ob.best_ask(), Some((102, 3)));
}

#[test]
fn market_order_drops_unfilled_remainder() {
    let mut ob = OrderBook::new();
    ob.submit_limit_order(Side::Sell, 5, 100, 1).unwrap();
    let fills = ob.submit_market_order(Side::Buy, 8, 2).unwrap();
    assert_eq!(fills, vec![fill(1, 2, 100, 5)]);
    assert_eq!(ob.best_ask(), None);
    assert_eq!(ob.best_bid(), None);
}

#[test]
fn market_order_on_empty_side_fills_nothing() {
    let mut ob = OrderBook::new();
    let fills = ob.submit_market_order(Side::Sell, 3, 1).unwrap();
    assert!(fills.is_empty());
}

#[test]
fn market_order_crosses_any_price() {
    let mut ob = OrderBook::new();
    ob.submit_limit_order(Side::Buy, 2, 10, 1).unwrap();
    ob.submit_limit_order(Side::Buy, 2, 1, 2).unwrap();
    let fills = ob.submit_market_order(Side::Sell, 4, 3).unwrap();
    assert_eq!(fills, vec![fill(1, 3, 10, 2), fill(2, 3, 1, 2)]);
}

#[test]
fn invalid_orders_are_rejected_unchanged() {
    let mut ob = OrderBook::new();
    assert_eq!(
        ob.submit_limit_order(Side::Buy, 0, 100, 1),
        Err(OrderBookError::InvalidOrder)
    );
    assert_eq!(
        ob.submit_limit_order(Side::Buy, 10, 0, 1),
        Err(OrderBookError::InvalidOrder)
    );
    assert_eq!(ob.submit_market_order(Side::Buy, 0, 1), Err(OrderBookError::InvalidOrder));
    assert_eq!(ob.best_bid(), None);
    assert_eq!(ob.best_ask(), None);
}

#[test]
fn duplicate_live_id_is_rejected() {
    let mut ob = OrderBook::new();
    ob.submit_limit_order(Side::Buy, 10, 50, 7).unwrap();
    assert_eq!(
        ob.submit_limit_order(Side::Sell, 5, 60, 7),
        Err(OrderBookError::DuplicateOrderId)
    );
    assert_eq!(ob.submit_market_order(Side::Sell, 5, 7), Err(OrderBookError::DuplicateOrderId));
    // The book is unchanged by the rejections.
    assert_eq!(ob.best_bid(), Some((50, 10)));
    assert_eq!(ob.best_ask(), None);
    // Once the order is gone its id may be reused.
    ob.cancel_order(7).unwrap();
    ob.submit_limit_order(Side::Sell, 5, 60, 7).unwrap();
    assert_eq!(ob.best_ask(), Some((60, 5)));
}

#[test]
fn cancel_unknown_id_fails_and_changes_nothing() {
    let mut ob = OrderBook::new();
    ob.submit_limit_order(Side::Buy, 10, 50, 1).unwrap();
    assert_eq!(ob.cancel_order(2), Err(OrderBookError::OrderNotFound));
    assert_eq!(ob.best_bid(), Some((50, 10)));
    // A filled order's id is no longer cancellable.
    ob.submit_limit_order(Side::Sell, 10, 50, 2).unwrap();
    assert_eq!(ob.cancel_order(1), Err(OrderBookError::OrderNotFound));
}

#[test]
fn cancel_middle_order_keeps_fifo_of_the_rest() {
    let mut ob = OrderBook::new();
    ob.submit_limit_order(Side::Sell, 1, 100, 1).unwrap();
    ob.submit_limit_order(Side::Sell, 2, 100, 2).unwrap();
    ob.submit_limit_order(Side::Sell, 3, 100, 3).unwrap();
    ob.cancel_order(2).unwrap();
    assert_eq!(ob.depth_at(Side::Sell, 100), Some((2, 4, 400)));
    let fills = ob.submit_limit_order(Side::Buy, 4, 100, 9).unwrap();
    assert_eq!(fills, vec![fill(1, 9, 100, 1), fill(3, 9, 100, 3)]);
}

#[test]
fn overflow_on_new_level_is_rejected() {
    let mut ob = OrderBook::new();
    // 2 * u64::MAX overflows the level's notional.
    assert_eq!(
        ob.submit_limit_order(Side::Buy, u64::MAX, 2, 1),
        Err(OrderBookError::Overflow)
    );
    assert_eq!(ob.best_bid(), None);
}

#[test]
fn overflow_on_existing_level_is_rejected() {
    let mut ob = OrderBook::new();
    // u64::MAX shares at price 1 fit exactly.
    ob.submit_limit_order(Side::Sell, u64::MAX, 1, 1).unwrap();
    // One more share at the same price would overflow total_shares.
    assert_eq!(
        ob.submit_limit_order(Side::Sell, 1, 1, 2),
        Err(OrderBookError::Overflow)
    );
    assert_eq!(ob.depth_at(Side::Sell, 1), Some((1, u64::MAX, u64::MAX)));
}

#[test]
fn depth_aggregates_count_shares_and_notional() {
    let mut ob = OrderBook::new();
    ob.submit_limit_order(Side::Sell, 3, 7, 1).unwrap();
    ob.submit_limit_order(Side::Sell, 4, 7, 2).unwrap();
    assert_eq!(ob.depth_at(Side::Sell, 7), Some((2, 7, 49)));
    assert_eq!(ob.depth_at(Side::Sell, 8), None);
    assert_eq!(ob.depth_at(Side::Buy, 7), None);
}

#[test]
fn both_sides_may_rest_the_same_price() {
    // A buy and a sell at the same price on a book whose sides never
    // cross only because the resting side is consumed first.
    let mut ob = OrderBook::new();
    ob.submit_limit_order(Side::Buy, 2, 100, 1).unwrap();
    ob.submit_limit_order(Side::Sell, 5, 100, 2).unwrap();
    // The sell matched 2 at 100 and rests the remaining 3 at 100.
    assert_eq!(ob.best_bid(), None);
    assert_eq!(ob.depth_at(Side::Sell, 100), Some((1, 3, 300)));
    ob.submit_limit_order(Side::Buy, 1, 99, 3).unwrap();
    assert_eq!(ob.depth_at(Side::Buy, 99), Some((1, 1, 99)));
    assert_eq!(ob.depth_at(Side::Sell, 100), Some((1, 3, 300)));
}

#[test]
fn aggressive_order_walks_levels_and_rests_remainder() {
    let mut ob = OrderBook::new();
    ob.submit_limit_order(Side::Sell, 2, 100, 1).unwrap();
    ob.submit_limit_order(Side::Sell, 2, 101, 2).unwrap();
    ob.submit_limit_order(Side::Sell, 2, 103, 3).unwrap();
    let fills = ob.submit_limit_order(Side::Buy, 7, 102, 4).unwrap();
    assert_eq!(fills, vec![fill(1, 4, 100, 2), fill(2, 4, 101, 2)]);
    // 3 unfilled shares rest at the buy's limit price.
    assert_eq!(ob.best_bid(), Some((102, 3)));
    assert_eq!(ob.best_ask(), Some((103, 2)));
}
