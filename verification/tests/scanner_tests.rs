//! Tests for the divergence scanner and for the cache store it
//! ultimately reads from.

use furucombo_arbitrage::cache::{CacheKey, CacheStore, MetricKind};
use furucombo_arbitrage::dec::Dec;
use furucombo_arbitrage::scanner::find_price_differences;
use furucombo_arbitrage::{CachedPrice, Exchange, Token, TradingPair};

fn pair(base: &str, quote: &str, dex: &str, price: u64, liquidity: u64) -> TradingPair {
    TradingPair::new(
        Token::new(base, base, 18, "0x1"),
        Token::new(quote, quote, 18, "0x2"),
        Exchange::new(dex, "Metis", "0x3"),
        Dec::from_int(price),
        Dec::from_int(liquidity),
        Dec::from_int(1),
        Dec::from_int(1),
    )
}

#[test]
fn test_small_spread_produces_no_signal() {
    // (1852 - 1850) / 1850 * 100 ~ 0.108%, below the 0.5% threshold
    let pairs = vec![
        pair("WETH", "USDC", "netswap", 1850, 500000),
        pair("WETH", "USDC", "tethys", 1852, 350000),
    ];
    let signals = find_price_differences(&pairs);
    assert!(signals.is_empty());
}

#[test]
fn test_large_spread_produces_signal() {
    // (85 - 80) / 80 * 100 = 6.25%
    let pairs = vec![
        pair("METIS", "USDC", "netswap", 85, 200000),
        pair("METIS", "USDC", "tethys", 80, 150000),
    ];
    let signals = find_price_differences(&pairs);
    assert_eq!(signals.len(), 1);
    let s = &signals[0];
    assert_eq!(s.base_symbol, "METIS");
    assert_eq!(s.quote_symbol, "USDC");
    assert_eq!(s.low_exchange, "tethys");
    assert_eq!(s.low_price, Dec::from_int(80));
    assert_eq!(s.high_exchange, "netswap");
    assert_eq!(s.high_price, Dec::from_int(85));
    assert_eq!(s.spread_pct.raw(), 6_250_000_000); // 6.25%
}

#[test]
fn test_mixed_snapshot_signals_only_divergent_identity() {
    let pairs = vec![
        pair("WETH", "USDC", "netswap", 1850, 500000),
        pair("WETH", "USDC", "tethys", 1852, 350000),
        pair("METIS", "USDC", "netswap", 85, 200000),
        pair("METIS", "USDC", "tethys", 80, 150000),
    ];
    let signals = find_price_differences(&pairs);
    assert_eq!(signals.len(), 1);
    assert_eq!(signals[0].base_symbol, "METIS");
}

#[test]
fn test_single_listing_never_signals() {
    // one exchange only: no signal, whatever the price
    let pairs = vec![pair("WETH", "USDC", "netswap", 1850, 500000)];
    assert!(find_price_differences(&pairs).is_empty());
    let pairs = vec![
        pair("WETH", "USDC", "netswap", 1850, 500000),
        pair("METIS", "USDC", "tethys", 85, 200000),
    ];
    assert!(find_price_differences(&pairs).is_empty());
}

#[test]
fn test_empty_snapshot() {
    assert!(find_price_differences(&Vec::new()).is_empty());
}

#[test]
fn test_one_signal_per_identity() {
    // three listings of the same identity give one signal spanning
    // the extremes
    let pairs = vec![
        pair("METIS", "USDC", "netswap", 85, 200000),
        pair("METIS", "USDC", "tethys", 80, 150000),
        pair("METIS", "USDC", "netswap", 83, 100000),
    ];
    let signals = find_price_differences(&pairs);
    assert_eq!(signals.len(), 1);
    assert_eq!(signals[0].low_price, Dec::from_int(80));
    assert_eq!(signals[0].high_price, Dec::from_int(85));
}

#[test]
fn test_cache_store_insert_and_overwrite() {
    let mut store = CacheStore::new();
    assert!(store.get("WETH", "USDC", MetricKind::Price).is_none());
    store.insert(
        CacheKey { base: "WETH".to_string(), quote: "USDC".to_string(), kind: MetricKind::Price },
        CachedPrice { price: Dec::from_int(1850), timestamp_seconds: 10, source: "a".to_string() },
    );
    store.insert(
        CacheKey {
            base: "WETH".to_string(),
            quote: "USDC".to_string(),
            kind: MetricKind::Liquidity,
        },
        CachedPrice { price: Dec::from_int(500000), timestamp_seconds: 10, source: "a".to_string() },
    );
    let hit = store.get("WETH", "USDC", MetricKind::Price).unwrap();
    assert_eq!(hit.price, Dec::from_int(1850));
    let liq = store.get("WETH", "USDC", MetricKind::Liquidity).unwrap();
    assert_eq!(liq.price, Dec::from_int(500000));

    store.insert(
        CacheKey { base: "WETH".to_string(), quote: "USDC".to_string(), kind: MetricKind::Price },
        CachedPrice { price: Dec::from_int(1900), timestamp_seconds: 20, source: "b".to_string() },
    );
    let hit = store.get("WETH", "USDC", MetricKind::Price).unwrap();
    assert_eq!(hit.price, Dec::from_int(1900));
    assert_eq!(hit.timestamp_seconds, 20);
    // the liquidity entry is untouched
    let liq = store.get("WETH", "USDC", MetricKind::Liquidity).unwrap();
    assert_eq!(liq.price, Dec::from_int(500000));
}
