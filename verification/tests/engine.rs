use matching_engine::engine::{MatchingEngine, TradingPair};
use matching_engine::orderbook::{BidOrAsk, Order};

/// Quantizes a raw numeric price to whole `PRICE_SCALE`ths.
fn units(price: f64) -> u64 {
    (price * 100000.0) as u64
}

#[test]
fn test_trading_pair_to_string() {
    let pair = TradingPair::new("BTC".to_string(), "USD".to_string());
    assert_eq!(pair.to_string(), "BTC/USD");
}

#[test]
fn test_place_limit_order_on_registered_market() {
    let mut engine = MatchingEngine::new();
    let pair = TradingPair::new("BTC".to_string(), "USD".to_string());
    engine.add_new_market(pair);

    let pair = TradingPair::new("BTC".to_string(), "USD".to_string());
    let buy_order = Order::new(BidOrAsk::Bid, 65);
    let placed = engine.place_limit_order(pair, units(10.0), buy_order);
    assert!(placed.is_ok());
    assert_eq!(engine.markets.len(), 1);
    assert_eq!(engine.markets[0].1.bids.len(), 1);
    assert_eq!(engine.markets[0].1.bids[0].orders[0].size, 65);
}

#[test]
fn test_routing_failure() {
    let mut engine = MatchingEngine::new();
    let pair = TradingPair::new("BTC".to_string(), "USD".to_string());
    engine.add_new_market(pair);

    let eth_pair = TradingPair::new("ETH".to_string(), "USD".to_string());
    let buy_order = Order::new(BidOrAsk::Bid, 65);
    let placed = engine.place_limit_order(eth_pair, units(10.0), buy_order);

    match placed {
        Ok(()) => panic!("placing on an unregistered pair must fail"),
        Err(msg) => assert_eq!(msg, "No market found for pair: ETH/USD"),
    }
    // No level was created anywhere.
    assert_eq!(engine.markets.len(), 1);
    assert_eq!(engine.markets[0].1.bids.len(), 0);
    assert_eq!(engine.markets[0].1.asks.len(), 0);
}

#[test]
fn test_reregistration_discards_standing_orders() {
    let mut engine = MatchingEngine::new();
    engine.add_new_market(TradingPair::new("BTC".to_string(), "USD".to_string()));

    let pair = TradingPair::new("BTC".to_string(), "USD".to_string());
    let buy_order = Order::new(BidOrAsk::Bid, 65);
    assert!(engine.place_limit_order(pair, units(10.0), buy_order).is_ok());
    assert_eq!(engine.markets[0].1.bids.len(), 1);

    // Registering the same pair again replaces the book wholesale:
    // the standing order is discarded, not merged.
    engine.add_new_market(TradingPair::new("BTC".to_string(), "USD".to_string()));
    assert_eq!(engine.markets.len(), 1);
    assert_eq!(engine.markets[0].1.bids.len(), 0);
    assert_eq!(engine.markets[0].1.asks.len(), 0);
}
