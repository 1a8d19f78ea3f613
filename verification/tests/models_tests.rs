//! Tests for the domain model: tokens, pair identifiers, cached-price
//! staleness, routes and opportunities.

use furucombo_arbitrage::dec::{parse_dec, Dec};
use furucombo_arbitrage::{
    ArbitrageLeg, ArbitrageOpportunity, ArbitrageRoute, CachedPrice, Exchange, Token, TradingPair,
};

#[test]
fn test_token_creation() {
    let token = Token::new("WETH", "Wrapped Ether", 18, "0x123...");
    assert_eq!(token.symbol, "WETH");
    assert_eq!(token.decimals, 18);
}

#[test]
fn test_trading_pair_id() {
    let base = Token::new("WETH", "Wrapped Ether", 18, "0x123");
    let quote = Token::new("USDC", "USD Coin", 6, "0x456");
    let exchange = Exchange::new("netswap", "Metis", "0x789");

    let pair = TradingPair::new(
        base,
        quote,
        exchange,
        parse_dec("1800.50").unwrap(),
        Dec::from_int(500000),
        Dec::from_int(100),
        Dec::from_int(180050),
    );

    assert_eq!(pair.pair_id(), "WETH/USDC");
    assert_eq!(pair.full_id(), "netswap:WETH/USDC");
}

#[test]
fn test_cached_price_staleness() {
    let cached = CachedPrice {
        price: Dec::from_int(1800),
        timestamp_seconds: chrono::Utc::now().timestamp() - 120,
        source: "test".to_string(),
    };

    assert!(cached.is_stale(60)); // 120s old > 60s max
    assert!(!cached.is_stale(180)); // 120s old < 180s max
}

#[test]
fn test_staleness_boundary_is_strict() {
    let cached = CachedPrice {
        price: Dec::from_int(1),
        timestamp_seconds: 1_000,
        source: "test".to_string(),
    };
    // age exactly equal to the maximum is not stale
    assert!(!cached.is_stale_at(120, 1_120));
    assert!(cached.is_stale_at(119, 1_120));
    // a timestamp in the future is never stale under a non-negative max age
    assert!(!cached.is_stale_at(0, 999));
}

#[test]
fn test_route_format_path() {
    let usdc = Token::new("USDC", "USD Coin", 6, "0x1");
    let weth = Token::new("WETH", "Wrapped Ether", 18, "0x2");
    let metis = Token::new("METIS", "Metis Token", 18, "0x3");
    let ex = Exchange::new("netswap", "Metis", "0x4");
    let legs = vec![
        ArbitrageLeg::new(
            usdc.clone(),
            weth.clone(),
            ex.clone(),
            Dec::from_int(1),
            Dec::from_int(1000),
        ),
        ArbitrageLeg::new(
            weth.clone(),
            metis.clone(),
            ex.clone(),
            Dec::from_int(1),
            Dec::from_int(1000),
        ),
        ArbitrageLeg::new(metis, usdc.clone(), ex, Dec::from_int(1), Dec::from_int(1000)),
    ];
    let route = ArbitrageRoute::new(legs);
    assert_eq!(route.total_hops, 3);
    assert_eq!(route.format_path(), "USDC -> WETH -> METIS -> USDC");

    let empty = ArbitrageRoute::new(Vec::new());
    assert_eq!(empty.format_path(), "");
}

#[test]
fn test_opportunity_profit_percentage() {
    let route = ArbitrageRoute::new(Vec::new());
    let opp = ArbitrageOpportunity::new(
        route,
        Dec::from_int(100),
        Dec::from_int(105),
        Dec::from_int(5),
        Dec::from_int(5),
        Dec::zero(),
    );
    // 5 / 100 * 100 = 5 percent
    assert_eq!(opp.profit_percentage, Dec::from_int(5));

    let route = ArbitrageRoute::new(Vec::new());
    let opp = ArbitrageOpportunity::new(
        route,
        Dec::zero(),
        Dec::zero(),
        Dec::zero(),
        Dec::from_int(5),
        Dec::zero(),
    );
    // zero input amount yields a zero percentage
    assert_eq!(opp.profit_percentage, Dec::zero());
}
