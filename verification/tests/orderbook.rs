use matching_engine::orderbook::{BidOrAsk, Limit, Order, OrderBook, Price};

#[test]
// Fill market order at cheapest price
fn orderbook_fill_market_order_ask() {
    // Make Orderbook
    let mut orderbook = OrderBook::new();

    // Make different price levels
    orderbook.add_limit_order(Price::new(500), Order::new(BidOrAsk::Ask, 10));
    orderbook.add_limit_order(Price::new(100), Order::new(BidOrAsk::Ask, 10));
    orderbook.add_limit_order(Price::new(200), Order::new(BidOrAsk::Ask, 10));
    orderbook.add_limit_order(Price::new(300), Order::new(BidOrAsk::Ask, 10));

    // Place Market Order
    let mut market_order = Order::new(BidOrAsk::Bid, 10);
    orderbook.fill_market_order(&mut market_order);

    let ask_limits = orderbook.ask_limits();
    let matched_limit = ask_limits.get(0).unwrap();

    // Check top of ask limits is cheapest
    assert_eq!(matched_limit.price, Price::new(100));
    // Check market order was filled
    assert_eq!(market_order.is_filled(), true);

    let matched_order = matched_limit.orders.get(0).unwrap();
    // Check the cheapest order at top of ASK book was filled
    assert_eq!(matched_order.is_filled(), true);
}

#[test]
fn limit_total_volume() {
    // Make new price level
    let price = Price::new(10000);
    let mut limit = Limit::new(price);

    // Add buy Limit Orders of 100 at price level
    let buy_limit_order_a = Order::new(BidOrAsk::Bid, 100);
    let buy_limit_order_b = Order::new(BidOrAsk::Bid, 100);
    limit.add_order(buy_limit_order_a);
    limit.add_order(buy_limit_order_b);

    assert_eq!(limit.total_volume(), 200);
}

#[test]
fn limit_order_multi_fill() {
    // Make new price level
    let price = Price::new(10000);
    let mut limit = Limit::new(price);

    // Add buy Limit Orders of 100 at price level
    let buy_limit_order_a = Order::new(BidOrAsk::Bid, 100);
    let buy_limit_order_b = Order::new(BidOrAsk::Bid, 100);
    limit.add_order(buy_limit_order_a);
    limit.add_order(buy_limit_order_b);

    // Fill sell Market Order of 199 at price level
    let mut market_sell_order = Order::new(BidOrAsk::Ask, 199);
    limit.fill_order(&mut market_sell_order);

    assert_eq!(market_sell_order.is_filled(), true);
    assert_eq!(limit.orders.get(0).unwrap().is_filled(), true);
    assert_eq!(limit.orders.get(1).unwrap().size, 1);
}

#[test]
fn limit_order_single_fill() {
    // Make new price level
    let price = Price::new(10000);
    let mut limit = Limit::new(price);

    // Add buy Limit Order of 100 at price level
    let buy_limit_order = Order::new(BidOrAsk::Bid, 100);
    limit.add_order(buy_limit_order);

    // Fill sell Market Order of 99 at price level
    let mut market_sell_order = Order::new(BidOrAsk::Ask, 99);
    limit.fill_order(&mut market_sell_order);

    assert_eq!(market_sell_order.is_filled(), true);
    assert_eq!(limit.orders.get(0).unwrap().size, 1);
}

#[test]
// Orders at one price accumulate in arrival order; volume is their exact sum
fn bucket_accumulates_in_arrival_order() {
    let mut orderbook = OrderBook::new();
    orderbook.add_limit_order(Price::new(42), Order::new(BidOrAsk::Ask, 5));
    orderbook.add_limit_order(Price::new(42), Order::new(BidOrAsk::Ask, 7));
    orderbook.add_limit_order(Price::new(42), Order::new(BidOrAsk::Ask, 9));

    let asks = orderbook.ask_limits();
    assert_eq!(asks.len(), 1);
    let bucket = asks.get(0).unwrap();
    assert_eq!(bucket.price, Price::new(42));
    assert_eq!(bucket.orders.len(), 3);
    assert_eq!(bucket.orders.get(0).unwrap().size, 5);
    assert_eq!(bucket.orders.get(1).unwrap().size, 7);
    assert_eq!(bucket.orders.get(2).unwrap().size, 9);
    assert_eq!(bucket.total_volume(), 21);
}

#[test]
// Whatever size the incoming order loses, the resting orders lose too
fn fill_conserves_traded_size() {
    let mut limit = Limit::new(Price::new(77));
    limit.add_order(Order::new(BidOrAsk::Bid, 30));
    limit.add_order(Order::new(BidOrAsk::Bid, 20));
    let resting_before = limit.total_volume();

    let mut market_order = Order::new(BidOrAsk::Ask, 35);
    let incoming_before = market_order.size;
    limit.fill_order(&mut market_order);

    let resting_after = limit.total_volume();
    let incoming_lost = incoming_before - market_order.size;
    let resting_lost = resting_before - resting_after;
    assert_eq!(incoming_lost as u128, resting_lost);
    assert_eq!(incoming_lost, 35);
}

#[test]
// Best-price selection: only the cheapest ask bucket is touched
fn best_price_selection_touches_only_best() {
    let mut orderbook = OrderBook::new();
    orderbook.add_limit_order(Price::new(500), Order::new(BidOrAsk::Ask, 10));
    orderbook.add_limit_order(Price::new(100), Order::new(BidOrAsk::Ask, 10));
    orderbook.add_limit_order(Price::new(200), Order::new(BidOrAsk::Ask, 10));
    orderbook.add_limit_order(Price::new(300), Order::new(BidOrAsk::Ask, 10));

    let mut market_order = Order::new(BidOrAsk::Bid, 10);
    orderbook.fill_market_order(&mut market_order);
    assert!(market_order.is_filled());

    let asks = orderbook.ask_limits();
    assert_eq!(asks.len(), 4);
    assert_eq!(asks.get(0).unwrap().price, Price::new(100));
    assert_eq!(asks.get(0).unwrap().orders.get(0).unwrap().size, 0);
    for i in 1..4 {
        assert_eq!(asks.get(i).unwrap().orders.get(0).unwrap().size, 10);
    }
}

#[test]
// Reading a bucket's volume never changes the bucket
fn total_volume_does_not_mutate() {
    let mut limit = Limit::new(Price::new(5));
    limit.add_order(Order::new(BidOrAsk::Bid, 11));
    limit.add_order(Order::new(BidOrAsk::Bid, 13));

    let first = limit.total_volume();
    let second = limit.total_volume();
    assert_eq!(first, second);
    assert_eq!(limit.orders.len(), 2);
    assert_eq!(limit.orders.get(0).unwrap().size, 11);
    assert_eq!(limit.orders.get(1).unwrap().size, 13);
}

#[test]
// An empty bucket has volume zero rather than failing
fn empty_bucket_volume_is_zero() {
    let limit = Limit::new(Price::new(1));
    assert_eq!(limit.total_volume(), 0);
}

#[test]
// Bid buckets come highest price first; ask buckets lowest first
fn sides_keep_matching_priority_order() {
    let mut orderbook = OrderBook::new();
    orderbook.add_limit_order(Price::new(100), Order::new(BidOrAsk::Bid, 1));
    orderbook.add_limit_order(Price::new(300), Order::new(BidOrAsk::Bid, 1));
    orderbook.add_limit_order(Price::new(200), Order::new(BidOrAsk::Bid, 1));
    orderbook.add_limit_order(Price::new(30), Order::new(BidOrAsk::Ask, 1));
    orderbook.add_limit_order(Price::new(10), Order::new(BidOrAsk::Ask, 1));
    orderbook.add_limit_order(Price::new(20), Order::new(BidOrAsk::Ask, 1));

    let bids = orderbook.bid_limits();
    assert_eq!(bids.get(0).unwrap().price, Price::new(300));
    assert_eq!(bids.get(1).unwrap().price, Price::new(200));
    assert_eq!(bids.get(2).unwrap().price, Price::new(100));

    let asks = orderbook.ask_limits();
    assert_eq!(asks.get(0).unwrap().price, Price::new(10));
    assert_eq!(asks.get(1).unwrap().price, Price::new(20));
    assert_eq!(asks.get(2).unwrap().price, Price::new(30));
}

#[test]
// A market ask consumes bid-side liquidity, best (highest) bid first
fn ask_market_order_consumes_bids() {
    let mut orderbook = OrderBook::new();
    orderbook.add_limit_order(Price::new(90), Order::new(BidOrAsk::Bid, 10));
    orderbook.add_limit_order(Price::new(110), Order::new(BidOrAsk::Bid, 10));
    orderbook.add_limit_order(Price::new(95), Order::new(BidOrAsk::Ask, 10));

    let mut market_order = Order::new(BidOrAsk::Ask, 10);
    orderbook.fill_market_order(&mut market_order);
    assert!(market_order.is_filled());

    let bids = orderbook.bid_limits();
    // The highest bid (110) was consumed; the lower bid is untouched
    assert_eq!(bids.get(0).unwrap().price, Price::new(110));
    assert!(bids.get(0).unwrap().orders.get(0).unwrap().is_filled());
    assert_eq!(bids.get(1).unwrap().orders.get(0).unwrap().size, 10);
    // The ask side is untouched by a market ask
    let asks = orderbook.ask_limits();
    assert_eq!(asks.get(0).unwrap().orders.get(0).unwrap().size, 10);
}

#[test]
// Liquidity short of the market order leaves the remainder with the caller
fn unfilled_remainder_stays_on_market_order() {
    let mut orderbook = OrderBook::new();
    orderbook.add_limit_order(Price::new(100), Order::new(BidOrAsk::Ask, 10));
    orderbook.add_limit_order(Price::new(200), Order::new(BidOrAsk::Ask, 15));

    let mut market_order = Order::new(BidOrAsk::Bid, 50);
    orderbook.fill_market_order(&mut market_order);

    assert_eq!(market_order.size, 25);
    let asks = orderbook.ask_limits();
    assert!(asks.get(0).unwrap().orders.get(0).unwrap().is_filled());
    assert!(asks.get(1).unwrap().orders.get(0).unwrap().is_filled());
}
