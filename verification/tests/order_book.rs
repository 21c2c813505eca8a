use limit_order_book_engine::{Order, OrderBook, OrderSide};
use limit_order_book_engine::messages::CancelResponse;

fn new_order_with_id(id: u64, side: OrderSide, price: u64, quantity: u32) -> Order {
    Order { id, side, price, quantity, timestamp: 0 }
}

#[test]
fn test_simple_match() {
    let mut book = OrderBook::new();

    let sell_order = new_order_with_id(1, OrderSide::Sell, 100, 10);
    book.add_order(sell_order);

    let buy_order = new_order_with_id(2, OrderSide::Buy, 100, 10);
    let fills = book.execute_order(buy_order);

    assert_eq!(fills.len(), 1);
    assert_eq!(fills[0].1, 10);
    assert!(book.asks.is_empty());
    assert!(book.bids.is_empty());
}

#[test]
fn test_partial_fill() {
    let mut book = OrderBook::new();

    book.add_order(new_order_with_id(1, OrderSide::Sell, 100, 20));

    let buy_order = new_order_with_id(2, OrderSide::Buy, 100, 10);
    let fills = book.execute_order(buy_order);

    assert_eq!(fills.len(), 1);
    assert_eq!(fills[0].1, 10);

    let best_ask = &book.asks[0];
    assert_eq!(best_ask[0].quantity, 10);
}

#[test]
fn test_price_priority() {
    let mut book = OrderBook::new();

    let sell_cheap = new_order_with_id(1, OrderSide::Sell, 100, 10);
    let id_cheap = sell_cheap.id;
    book.add_order(sell_cheap);

    let sell_expensive = new_order_with_id(2, OrderSide::Sell, 101, 10);
    book.add_order(sell_expensive);

    let buy_order = new_order_with_id(3, OrderSide::Buy, 101, 10);
    let fills = book.execute_order(buy_order);

    assert_eq!(fills.len(), 1);
    assert_eq!(fills[0].0, id_cheap);
}

#[test]
fn full_match_empties_both_sides() {
    let mut book = OrderBook::new();
    book.add_order(new_order_with_id(7, OrderSide::Sell, 100, 10));

    let fills = book.execute_order(new_order_with_id(8, OrderSide::Buy, 100, 10));

    assert_eq!(fills, vec![(7, 10)]);
    assert!(book.asks.is_empty());
    assert!(book.bids.is_empty());
    assert_eq!(book.get_best_ask(), None);
    assert_eq!(book.get_best_bid(), None);
}

#[test]
fn partial_fill_leaves_remainder_resting() {
    let mut book = OrderBook::new();
    book.add_order(new_order_with_id(1, OrderSide::Sell, 100, 20));

    let fills = book.execute_order(new_order_with_id(2, OrderSide::Buy, 100, 10));

    assert_eq!(fills, vec![(1, 10)]);
    assert_eq!(book.get_best_ask(), Some(100));
    assert_eq!(book.asks[0][0].quantity, 10);
    assert!(book.bids.is_empty());
}

#[test]
fn cheaper_level_consumed_first_and_fully_satisfies() {
    let mut book = OrderBook::new();
    book.add_order(new_order_with_id(10, OrderSide::Sell, 100, 10)); // id A
    book.add_order(new_order_with_id(11, OrderSide::Sell, 101, 10)); // id B

    let fills = book.execute_order(new_order_with_id(12, OrderSide::Buy, 101, 10));

    assert_eq!(fills, vec![(10, 10)]);
    // the level at 101 is untouched
    assert_eq!(book.get_best_ask(), Some(101));
    assert_eq!(book.asks.len(), 1);
    assert_eq!(book.asks[0][0].id, 11);
    assert_eq!(book.asks[0][0].quantity, 10);
}

#[test]
fn thousand_level_sweep_fills_in_ascending_price_order() {
    let mut book = OrderBook::new();
    for k in 0..1000u64 {
        book.add_order(new_order_with_id(k, OrderSide::Sell, 1000 + k, 1));
    }

    let fills = book.execute_order(new_order_with_id(5000, OrderSide::Buy, 2000, 1000));

    assert_eq!(fills.len(), 1000);
    for k in 0..1000usize {
        assert_eq!(fills[k], (k as u64, 1));
    }
    assert!(book.asks.is_empty());
    assert!(book.bids.is_empty());
}

#[test]
fn cancel_unknown_id_is_not_found_and_book_unchanged() {
    let mut book = OrderBook::new();
    book.add_order(new_order_with_id(1, OrderSide::Sell, 100, 5));

    let removed = book.cancel_order(999);

    assert!(removed.is_none());
    assert_eq!(book.get_best_ask(), Some(100));
    assert_eq!(book.asks.len(), 1);
    assert_eq!(book.asks[0].len(), 1);
}

#[test]
fn cancel_only_order_removes_its_level() {
    let mut book = OrderBook::new();
    book.add_order(new_order_with_id(1, OrderSide::Buy, 90, 5));

    let removed = book.cancel_order(1);

    assert_eq!(removed.map(|o| (o.id, o.price, o.quantity)), Some((1, 90, 5)));
    assert!(book.bids.is_empty());
    assert_eq!(book.get_best_bid(), None);
}

#[test]
fn cancel_middle_order_keeps_fifo_of_remainder() {
    let mut book = OrderBook::new();
    book.add_order(new_order_with_id(1, OrderSide::Sell, 100, 1));
    book.add_order(new_order_with_id(2, OrderSide::Sell, 100, 2));
    book.add_order(new_order_with_id(3, OrderSide::Sell, 100, 3));

    let removed = book.cancel_order(2);
    assert_eq!(removed.map(|o| o.id), Some(2));

    // the oldest remaining order still fills first
    let fills = book.execute_order(new_order_with_id(9, OrderSide::Buy, 100, 4));
    assert_eq!(fills, vec![(1, 1), (3, 3)]);
    assert!(book.asks.is_empty());
}

#[test]
fn cancel_twice_is_not_found_the_second_time() {
    let mut book = OrderBook::new();
    book.add_order(new_order_with_id(4, OrderSide::Buy, 50, 7));

    assert!(book.cancel_order(4).is_some());
    assert!(book.cancel_order(4).is_none());
    assert!(book.bids.is_empty());
}

#[test]
fn cancel_after_full_fill_is_not_found() {
    let mut book = OrderBook::new();
    book.add_order(new_order_with_id(1, OrderSide::Sell, 100, 10));
    let fills = book.execute_order(new_order_with_id(2, OrderSide::Buy, 100, 10));
    assert_eq!(fills.len(), 1);

    assert!(book.cancel_order(1).is_none());
}

#[test]
fn time_priority_within_a_level() {
    let mut book = OrderBook::new();
    book.add_order(new_order_with_id(21, OrderSide::Sell, 100, 10)); // earlier
    book.add_order(new_order_with_id(22, OrderSide::Sell, 100, 10)); // later

    let fills = book.execute_order(new_order_with_id(30, OrderSide::Buy, 100, 15));

    assert_eq!(fills, vec![(21, 10), (22, 5)]);
    assert_eq!(book.asks[0][0].id, 22);
    assert_eq!(book.asks[0][0].quantity, 5);
}

#[test]
fn unmatched_remainder_rests_on_own_side() {
    let mut book = OrderBook::new();
    book.add_order(new_order_with_id(1, OrderSide::Sell, 105, 4));

    let fills = book.execute_order(new_order_with_id(2, OrderSide::Buy, 105, 10));

    assert_eq!(fills, vec![(1, 4)]);
    assert!(book.asks.is_empty());
    assert_eq!(book.get_best_bid(), Some(105));
    assert_eq!(book.bids[0][0].id, 2);
    assert_eq!(book.bids[0][0].quantity, 6);
}

#[test]
fn non_crossing_order_rests_without_fills() {
    let mut book = OrderBook::new();
    book.add_order(new_order_with_id(1, OrderSide::Sell, 110, 5));

    let fills = book.execute_order(new_order_with_id(2, OrderSide::Buy, 100, 5));

    assert!(fills.is_empty());
    assert_eq!(book.get_best_ask(), Some(110));
    assert_eq!(book.get_best_bid(), Some(100));
}

#[test]
fn sell_sweeps_bid_side_from_highest_price() {
    let mut book = OrderBook::new();
    book.add_order(new_order_with_id(1, OrderSide::Buy, 95, 5));
    book.add_order(new_order_with_id(2, OrderSide::Buy, 98, 5));

    let fills = book.execute_order(new_order_with_id(3, OrderSide::Sell, 95, 8));

    assert_eq!(fills, vec![(2, 5), (1, 3)]);
    assert_eq!(book.get_best_bid(), Some(95));
    assert_eq!(book.bids[0][0].quantity, 2);
}

#[test]
fn best_prices_track_sorted_levels() {
    let mut book = OrderBook::new();
    book.add_order(new_order_with_id(1, OrderSide::Buy, 90, 1));
    book.add_order(new_order_with_id(2, OrderSide::Buy, 95, 1));
    book.add_order(new_order_with_id(3, OrderSide::Buy, 92, 1));
    book.add_order(new_order_with_id(4, OrderSide::Sell, 104, 1));
    book.add_order(new_order_with_id(5, OrderSide::Sell, 101, 1));
    book.add_order(new_order_with_id(6, OrderSide::Sell, 108, 1));

    assert_eq!(book.get_best_bid(), Some(95));
    assert_eq!(book.get_best_ask(), Some(101));
}

#[test]
fn snapshot_lists_levels_best_first_and_fifo_within() {
    let mut book = OrderBook::new();
    book.add_order(new_order_with_id(1, OrderSide::Sell, 102, 1));
    book.add_order(new_order_with_id(2, OrderSide::Sell, 101, 2));
    book.add_order(new_order_with_id(3, OrderSide::Sell, 101, 3));
    book.add_order(new_order_with_id(4, OrderSide::Buy, 99, 4));
    book.add_order(new_order_with_id(5, OrderSide::Buy, 100, 5));

    let (bids, asks) = book.snapshot();

    let bid_ids: Vec<u64> = bids.iter().map(|o| o.id).collect();
    let ask_ids: Vec<u64> = asks.iter().map(|o| o.id).collect();
    assert_eq!(bid_ids, vec![5, 4]);
    assert_eq!(ask_ids, vec![2, 3, 1]);
}

#[test]
fn fills_never_exceed_incoming_quantity() {
    let mut book = OrderBook::new();
    book.add_order(new_order_with_id(1, OrderSide::Sell, 100, 3));
    book.add_order(new_order_with_id(2, OrderSide::Sell, 101, 3));
    book.add_order(new_order_with_id(3, OrderSide::Sell, 102, 3));

    let fills = book.execute_order(new_order_with_id(4, OrderSide::Buy, 102, 7));

    let total: u32 = fills.iter().map(|f| f.1).sum();
    assert_eq!(total, 7);
    assert_eq!(fills, vec![(1, 3), (2, 3), (3, 1)]);
    assert_eq!(book.asks[0][0].quantity, 2);
}

#[test]
fn cancel_response_statuses() {
    let ok = CancelResponse::from_outcome(42, true);
    assert_eq!(ok.status, "ok");
    assert_eq!(ok.order_id, 42);

    let missing = CancelResponse::from_outcome(43, false);
    assert_eq!(missing.status, "not_found");
    assert_eq!(missing.order_id, 43);
}
