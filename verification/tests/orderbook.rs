use matching_engine::orderbook::{BidOrAsk, Limit, Order, OrderBook, Price};

/// Quantizes a raw numeric price to whole `PRICE_SCALE`ths, the form
/// the library's price keys are built from.
fn units(price: f64) -> u64 {
    (price * 100000.0) as u64
}

#[test]
fn test_price_new() {
    let price = Price::new(units(1.23456789));
    assert_eq!(price.integral, 1);
    assert_eq!(price.fractional, 23456);
    assert_eq!(price.scalar, 100000);
}

#[test]
fn test_limit_new() {
    let price = Price::new(units(1.23456789));
    let limit = Limit::new(price);
    assert_eq!(limit.price.integral, 1);
    assert_eq!(limit.price.fractional, 23456);
    assert_eq!(limit.price.scalar, 100000);
}

#[test]
fn test_order_new() {
    let order = Order::new(BidOrAsk::Bid, 100);
    assert_eq!(order.size, 100);
    assert_eq!(order.bid_or_ask, BidOrAsk::Bid);
}

#[test]
fn test_order_is_filled() {
    let mut order = Order::new(BidOrAsk::Bid, 100);
    assert_eq!(order.is_filled(), false);
    order.size = 0;
    assert_eq!(order.is_filled(), true);
}

#[test]
fn test_orderbook_new() {
    let orderbook = OrderBook::new();
    assert_eq!(orderbook.bids.len(), 0);
    assert_eq!(orderbook.asks.len(), 0);
}

#[test]
fn test_orderbook_add_order() {
    let mut orderbook = OrderBook::new();
    let order = Order::new(BidOrAsk::Bid, 100);
    orderbook.add_order(units(1.23456789), order);
    assert_eq!(orderbook.bids.len(), 1);
    assert_eq!(orderbook.asks.len(), 0);
    assert_eq!(orderbook.bids[0].price, Price::new(units(1.23456789)));
    assert_eq!(orderbook.bids[0].orders.len(), 1);
    assert_eq!(orderbook.bids[0].orders[0].size, 100);
    assert_eq!(orderbook.bids[0].orders[0].bid_or_ask, BidOrAsk::Bid);
}

#[test]
fn test_limit_fill_order_with_single_limit() {
    let mut limit = Limit::new(Price::new(units(1.23456789)));
    let buy_limit_order = Order::new(BidOrAsk::Bid, 100);
    limit.add_order(buy_limit_order);

    let mut market_sell_order = Order::new(BidOrAsk::Ask, 50);
    limit.fill_order(&mut market_sell_order);
    assert_eq!(market_sell_order.size, 0);
    assert_eq!(limit.orders[0].size, 50);
    assert_eq!(market_sell_order.is_filled(), true);

    let mut market_sell_order = Order::new(BidOrAsk::Ask, 100);
    limit.fill_order(&mut market_sell_order);
    assert_eq!(market_sell_order.size, 50);
    assert_eq!(limit.orders[0].size, 0);
    assert_eq!(market_sell_order.is_filled(), false);
}

#[test]
fn test_limit_fill_order_with_multiple_limits() {
    let mut limit = Limit::new(Price::new(units(1.23456789)));
    let buy_limit_order = Order::new(BidOrAsk::Bid, 50);
    limit.add_order(buy_limit_order);
    let buy_limit_order = Order::new(BidOrAsk::Bid, 50);
    limit.add_order(buy_limit_order);

    let mut market_sell_order = Order::new(BidOrAsk::Ask, 99);
    limit.fill_order(&mut market_sell_order);
    assert_eq!(market_sell_order.size, 0);
    assert_eq!(limit.orders[0].size, 0);
    assert_eq!(limit.orders[1].size, 1);
    assert_eq!(market_sell_order.is_filled(), true);
}

#[test]
fn test_limit_total_volume() {
    let mut limit = Limit::new(Price::new(units(1.23456789)));
    let buy_limit_order = Order::new(BidOrAsk::Bid, 50);
    limit.add_order(buy_limit_order);
    let buy_limit_order = Order::new(BidOrAsk::Bid, 50);
    limit.add_order(buy_limit_order);
    assert_eq!(limit.total_volume(), 100);
}

#[test]
fn test_price_key_deterministic() {
    assert_eq!(Price::new(units(1.23456789)), Price::new(units(1.23456789)));
    assert_eq!(Price::new(123456), Price::new(123456));
}

#[test]
fn test_price_key_ordering() {
    // Differing in the fractional part alone.
    assert!(Price::new(units(1.2)).lt(&Price::new(units(1.3))));
    // Differing in the integral part.
    assert!(Price::new(units(1.9)).lt(&Price::new(units(2.1))));
    // Adjacent representable prices.
    assert!(Price::new(99999).lt(&Price::new(100000)));
    assert!(!Price::new(100000).lt(&Price::new(99999)));
    assert!(!Price::new(100000).lt(&Price::new(100000)));
}

#[test]
fn test_exact_consumption() {
    let mut limit = Limit::new(Price::new(units(10.0)));
    limit.add_order(Order::new(BidOrAsk::Bid, 50));

    let mut market_sell_order = Order::new(BidOrAsk::Ask, 50);
    limit.fill_order(&mut market_sell_order);
    assert_eq!(market_sell_order.size, 0);
    assert_eq!(limit.orders[0].size, 0);
    assert_eq!(market_sell_order.is_filled(), true);
    assert_eq!(limit.orders[0].is_filled(), true);
}

#[test]
fn test_cross_level_best_price_first() {
    let mut orderbook = OrderBook::new();
    orderbook.add_order(units(300.0), Order::new(BidOrAsk::Ask, 10));
    orderbook.add_order(units(100.0), Order::new(BidOrAsk::Ask, 10));
    orderbook.add_order(units(500.0), Order::new(BidOrAsk::Ask, 10));
    orderbook.add_order(units(200.0), Order::new(BidOrAsk::Ask, 10));

    let mut market_buy_order = Order::new(BidOrAsk::Bid, 25);
    orderbook.fill_market_order(&mut market_buy_order);

    assert!(market_buy_order.is_filled());
    let asks = orderbook.ask_limits();
    assert_eq!(asks.len(), 4);
    assert_eq!(asks[0].price, Price::new(units(100.0)));
    assert_eq!(asks[0].orders[0].size, 0);
    assert_eq!(asks[1].price, Price::new(units(200.0)));
    assert_eq!(asks[1].orders[0].size, 0);
    assert_eq!(asks[2].price, Price::new(units(300.0)));
    assert_eq!(asks[2].orders[0].size, 5);
    assert_eq!(asks[3].price, Price::new(units(500.0)));
    assert_eq!(asks[3].orders[0].size, 10);
}

#[test]
fn test_limits_sorted_best_price_first() {
    let mut orderbook = OrderBook::new();
    orderbook.add_order(units(300.0), Order::new(BidOrAsk::Ask, 1));
    orderbook.add_order(units(100.0), Order::new(BidOrAsk::Ask, 1));
    orderbook.add_order(units(200.0), Order::new(BidOrAsk::Ask, 1));
    orderbook.add_order(units(4.4), Order::new(BidOrAsk::Bid, 1));
    orderbook.add_order(units(6.5), Order::new(BidOrAsk::Bid, 1));
    orderbook.add_order(units(5.0), Order::new(BidOrAsk::Bid, 1));

    let asks = orderbook.ask_limits();
    assert_eq!(asks.len(), 3);
    assert!(asks[0].price.lt(&asks[1].price));
    assert!(asks[1].price.lt(&asks[2].price));

    let bids = orderbook.bid_limits();
    assert_eq!(bids.len(), 3);
    assert!(bids[1].price.lt(&bids[0].price));
    assert!(bids[2].price.lt(&bids[1].price));
}

#[test]
fn test_total_volume_includes_filled_orders() {
    let mut limit = Limit::new(Price::new(units(10.0)));
    limit.add_order(Order::new(BidOrAsk::Bid, 50));
    limit.add_order(Order::new(BidOrAsk::Bid, 50));

    let mut market_sell_order = Order::new(BidOrAsk::Ask, 50);
    limit.fill_order(&mut market_sell_order);

    // The first order is filled but stays in the queue at size zero.
    assert_eq!(limit.orders.len(), 2);
    assert_eq!(limit.orders[0].size, 0);
    assert_eq!(limit.total_volume(), 50);
}

#[test]
fn test_unfilled_remainder_is_left_on_the_order() {
    let mut orderbook = OrderBook::new();
    orderbook.add_order(units(100.0), Order::new(BidOrAsk::Ask, 10));

    let mut market_buy_order = Order::new(BidOrAsk::Bid, 25);
    orderbook.fill_market_order(&mut market_buy_order);

    assert_eq!(market_buy_order.size, 15);
    assert_eq!(market_buy_order.is_filled(), false);
    assert_eq!(orderbook.asks[0].orders[0].size, 0);
}
