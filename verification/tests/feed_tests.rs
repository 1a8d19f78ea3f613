//! Tests for the feeds: the fixture source, conversion, ingestion,
//! and the cache semantics of a refresh.

use furucombo_arbitrage::dec::{Dec, UNIT};
use furucombo_arbitrage::price_feed::{
    convert_to_trading_pair, ingest_records, ConvertError, FeedError, RawPairRecord, RawTokenInfo,
};
use furucombo_arbitrage::{MetisPriceFeed, MockPriceFeed, PriceFeed};

fn raw_token(symbol: &str) -> RawTokenInfo {
    RawTokenInfo {
        address: format!("0x{}", symbol.to_lowercase()),
        name: symbol.to_string(),
        symbol: symbol.to_string(),
    }
}

fn raw_record(dex: &str, base: &str, quote: &str, price: &str, liquidity: &str) -> RawPairRecord {
    RawPairRecord {
        chain_id: "metis".to_string(),
        dex_id: dex.to_string(),
        pair_address: "0xpair".to_string(),
        base_token: raw_token(base),
        quote_token: raw_token(quote),
        price_usd: Some(price.to_string()),
        price_native: None,
        liquidity_usd: Some(liquidity.to_string()),
        liquidity_base: Some("100".to_string()),
        liquidity_quote: Some("200".to_string()),
    }
}

#[test]
fn test_mock_price_feed() {
    let feed = MockPriceFeed::new();
    let pairs = feed.get_trading_pairs();

    assert!(!pairs.is_empty());
    assert!(pairs.iter().any(|p| p.base_token.symbol == "WETH"));
}

#[test]
fn test_mock_get_price() {
    let feed = MockPriceFeed::new();
    let price = feed.get_price("WETH", "USDC");

    assert!(price.is_some());
    assert!(price.unwrap() > Dec::zero());
}

#[test]
fn test_mock_get_liquidity() {
    let feed = MockPriceFeed::new();
    assert_eq!(feed.get_liquidity("WETH", "USDC"), Some(Dec::from_int(500000)));
    assert_eq!(feed.get_liquidity("WETH", "METIS"), None);
}

#[test]
fn test_convert_builds_identifiers() {
    // conversion keeps symbols and exchange, so the identifiers are
    // base/quote and exchange:base/quote
    let pair = convert_to_trading_pair(raw_record("netswap", "WETH", "USDC", "1850", "500000"))
        .unwrap();
    assert_eq!(pair.pair_id(), "WETH/USDC");
    assert_eq!(pair.full_id(), "netswap:WETH/USDC");
    assert_eq!(pair.price.raw(), 1850 * UNIT);
    assert_eq!(pair.liquidity.raw(), 500000 * UNIT);
    assert_eq!(pair.base_token.decimals, 18);
    assert_eq!(pair.quote_token.decimals, 18);
    assert_eq!(pair.exchange.chain, "Metis");
}

#[test]
fn test_convert_prefers_usd_price() {
    let mut rec = raw_record("netswap", "WETH", "USDC", "1850", "500000");
    rec.price_native = Some("2".to_string());
    let pair = convert_to_trading_pair(rec).unwrap();
    assert_eq!(pair.price.raw(), 1850 * UNIT);

    let mut rec = raw_record("netswap", "WETH", "USDC", "1850", "500000");
    rec.price_usd = None;
    rec.price_native = Some("2".to_string());
    let pair = convert_to_trading_pair(rec).unwrap();
    assert_eq!(pair.price.raw(), 2 * UNIT);
}

#[test]
fn test_convert_rejects_missing_price() {
    let mut rec = raw_record("netswap", "WETH", "USDC", "1850", "500000");
    rec.price_usd = None;
    rec.price_native = None;
    assert_eq!(convert_to_trading_pair(rec).unwrap_err(), ConvertError::MissingPrice);
}

#[test]
fn test_convert_rejects_non_positive_price() {
    let rec = raw_record("netswap", "WETH", "USDC", "0", "500000");
    assert_eq!(convert_to_trading_pair(rec).unwrap_err(), ConvertError::NonPositivePrice);
    // an unparsable price counts as zero and is rejected too
    let rec = raw_record("netswap", "WETH", "USDC", "n/a", "500000");
    assert_eq!(convert_to_trading_pair(rec).unwrap_err(), ConvertError::NonPositivePrice);
    // a negative price parses and is rejected for its sign
    let rec = raw_record("netswap", "WETH", "USDC", "-1850", "500000");
    assert_eq!(convert_to_trading_pair(rec).unwrap_err(), ConvertError::NonPositivePrice);
}

#[test]
fn test_convert_rejects_low_liquidity() {
    // 999 is below the 1000 floor
    let rec = raw_record("netswap", "WETH", "USDC", "1850", "999");
    assert_eq!(convert_to_trading_pair(rec).unwrap_err(), ConvertError::LowLiquidity);
    // exactly at the floor is accepted
    let rec = raw_record("netswap", "WETH", "USDC", "1850", "1000");
    assert!(convert_to_trading_pair(rec).is_ok());
}

#[test]
fn test_ingest_filters_chain_and_exchange() {
    let mut off_chain = raw_record("netswap", "WETH", "USDC", "1850", "500000");
    off_chain.chain_id = "ethereum".to_string();
    let wrong_dex = {
        let mut r = raw_record("sushi", "WETH", "USDC", "1850", "500000");
        r.dex_id = "sushi".to_string();
        r
    };
    let good = raw_record("tethys", "WETH", "USDC", "1852", "350000");
    let pairs = ingest_records(vec![off_chain, wrong_dex, good]);
    assert_eq!(pairs.len(), 1);
    assert_eq!(pairs[0].full_id(), "tethys:WETH/USDC");
}

#[test]
fn test_ingest_excludes_rejected_records() {
    let low_liq = raw_record("netswap", "METIS", "USDC", "85", "999");
    let zero_price = raw_record("netswap", "WETH", "USDC", "0", "500000");
    let good = raw_record("netswap", "WMETIS", "USDC", "2", "2000");
    let pairs = ingest_records(vec![low_liq, zero_price, good]);
    assert_eq!(pairs.len(), 1);
    assert_eq!(pairs[0].pair_id(), "WMETIS/USDC");
}

#[test]
fn test_ingest_deduplicates_first_seen_wins() {
    let first = raw_record("netswap", "WETH", "USDC", "1850", "500000");
    let duplicate = raw_record("netswap", "WETH", "USDC", "1999", "700000");
    let other_dex = raw_record("tethys", "WETH", "USDC", "1852", "350000");
    let pairs = ingest_records(vec![first, duplicate, other_dex]);
    // the two netswap records share a full identifier and collapse to one
    assert_eq!(pairs.len(), 2);
    assert_eq!(pairs[0].full_id(), "netswap:WETH/USDC");
    assert_eq!(pairs[0].price.raw(), 1850 * UNIT);
    assert_eq!(pairs[1].full_id(), "tethys:WETH/USDC");
}

#[test]
fn test_refresh_twice_same_records_same_snapshot() {
    let records = || {
        vec![
            raw_record("netswap", "WETH", "USDC", "1850", "500000"),
            raw_record("tethys", "WETH", "USDC", "1852", "350000"),
        ]
    };
    let mut feed = MetisPriceFeed::new();
    feed.refresh(Ok(records())).unwrap();
    let first: Vec<String> = feed.get_trading_pairs().iter().map(|p| p.full_id()).collect();
    feed.refresh(Ok(records())).unwrap();
    let second: Vec<String> = feed.get_trading_pairs().iter().map(|p| p.full_id()).collect();
    assert_eq!(first, second);
    assert_eq!(first.len(), 2);
}

#[test]
fn test_refresh_populates_caches() {
    let mut feed = MetisPriceFeed::new();
    feed.refresh(Ok(vec![raw_record("netswap", "WETH", "USDC", "1850", "500000")])).unwrap();
    assert_eq!(feed.get_price("WETH", "USDC"), Some(Dec::from_int(1850)));
    assert_eq!(feed.get_liquidity("WETH", "USDC"), Some(Dec::from_int(500000)));
    assert_eq!(feed.get_price("METIS", "USDC"), None);
}

#[test]
fn test_price_lookup_staleness_asymmetry() {
    let mut feed = MetisPriceFeed::new();
    feed.refresh(Ok(vec![raw_record("netswap", "WETH", "USDC", "1850", "500000")])).unwrap();
    let far_future = chrono::Utc::now().timestamp() + 3600;
    // the price path refuses an entry older than its window
    assert_eq!(feed.lookup_price_at("WETH", "USDC", 60, far_future), None);
    // the liquidity path applies no staleness check at all
    assert_eq!(feed.get_liquidity("WETH", "USDC"), Some(Dec::from_int(500000)));
}

#[test]
fn test_failed_refresh_keeps_previous_snapshot() {
    let mut feed = MetisPriceFeed::new();
    feed.refresh(Ok(vec![raw_record("netswap", "WETH", "USDC", "1850", "500000")])).unwrap();
    let before: Vec<String> = feed.get_trading_pairs().iter().map(|p| p.full_id()).collect();

    let outcome = feed.refresh(Err(FeedError { message: "client construction failed".to_string() }));
    assert!(outcome.is_err());
    assert_eq!(outcome.unwrap_err().message, "client construction failed");

    let after: Vec<String> = feed.get_trading_pairs().iter().map(|p| p.full_id()).collect();
    assert_eq!(before, after);
    assert_eq!(feed.get_price("WETH", "USDC"), Some(Dec::from_int(1850)));
}

#[test]
fn test_warm_up_fills_only_pair_list() {
    let mut feed = MetisPriceFeed::new();
    assert!(!feed.has_snapshot());
    feed.warm_up_from_records(vec![raw_record("netswap", "WETH", "USDC", "1850", "500000")]);
    assert!(feed.has_snapshot());
    assert_eq!(feed.get_trading_pairs().len(), 1);
    // warm-up does not write the per-pair metric cache
    assert_eq!(feed.get_price("WETH", "USDC"), None);
    assert_eq!(feed.get_liquidity("WETH", "USDC"), None);
}

#[test]
fn test_search_url() {
    let feed = MetisPriceFeed::new();
    assert_eq!(
        feed.search_url("metis"),
        "https://api.dexscreener.com/latest/dex/search?q=metis"
    );
    let terms = MetisPriceFeed::search_terms();
    assert_eq!(terms, vec!["metis", "netswap", "tethys"]);
}

#[test]
fn test_mock_refresh_is_noop() {
    let mut feed = MockPriceFeed::new();
    assert!(feed.refresh(Ok(Vec::new())).is_ok());
    assert_eq!(feed.get_trading_pairs().len(), 4);
}
