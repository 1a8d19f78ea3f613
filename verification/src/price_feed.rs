//! Price feeds: the provider contract, the network-backed source's
//! normalization pipeline, and a deterministic in-memory fixture.
//!
//! The network transport itself lives outside the library; the feed
//! here takes the raw records a fetch produced (or its failure) and
//! does everything after that: filtering to the target chain and the
//! allow-listed exchanges, validation, deduplication, and the cache
//! rebuild.

use vstd::prelude::*;

use crate::cache::{spec_key_is, CacheKey, CacheStore, MetricKind};
use crate::clock;
use crate::dec::{parse_dec, spec_parse_decimal, Dec};
use crate::models::{
    spec_stale, CachedPrice, Exchange, ExchangeView, PairView, Token, TokenView, TradingPair,
};

verus! {

/// Price cache entries older than this many seconds are not served.
pub const PRICE_MAX_AGE_SECONDS: i64 = 60;

/// The least liquidity (in raw billionths of a dollar) a record may
/// carry and still be converted: one thousand dollars.
pub const MIN_LIQUIDITY_RAW: i128 = 1_000_000_000_000;

/// A token descriptor as the upstream feed sends it.
#[derive(Debug)]
pub struct RawTokenInfo {
    pub address: String,
    pub name: String,
    pub symbol: String,
}

/// The mathematical model of a raw token descriptor.
pub ghost struct RawTokenInfoView {
    pub address: Seq<char>,
    pub name: Seq<char>,
    pub symbol: Seq<char>,
}

impl View for RawTokenInfo {
    type V = RawTokenInfoView;

    open spec fn view(&self) -> RawTokenInfoView {
        RawTokenInfoView { address: self.address@, name: self.name@, symbol: self.symbol@ }
    }
}

impl DeepView for RawTokenInfo {
    type V = RawTokenInfoView;

    open spec fn deep_view(&self) -> RawTokenInfoView {
        self.view()
    }
}

/// One pair record as the upstream feed sends it: every number still
/// a string, every missing field still missing.
#[derive(Debug)]
pub struct RawPairRecord {
    pub chain_id: String,
    pub dex_id: String,
    pub pair_address: String,
    pub base_token: RawTokenInfo,
    pub quote_token: RawTokenInfo,
    pub price_usd: Option<String>,
    pub price_native: Option<String>,
    pub liquidity_usd: Option<String>,
    pub liquidity_base: Option<String>,
    pub liquidity_quote: Option<String>,
}

/// The mathematical model of a raw pair record.
pub ghost struct RawPairRecordView {
    pub chain_id: Seq<char>,
    pub dex_id: Seq<char>,
    pub pair_address: Seq<char>,
    pub base_token: RawTokenInfoView,
    pub quote_token: RawTokenInfoView,
    pub price_usd: Option<Seq<char>>,
    pub price_native: Option<Seq<char>>,
    pub liquidity_usd: Option<Seq<char>>,
    pub liquidity_base: Option<Seq<char>>,
    pub liquidity_quote: Option<Seq<char>>,
}

impl View for RawPairRecord {
    type V = RawPairRecordView;

    open spec fn view(&self) -> RawPairRecordView {
        RawPairRecordView {
            chain_id: self.chain_id@,
            dex_id: self.dex_id@,
            pair_address: self.pair_address@,
            base_token: self.base_token@,
            quote_token: self.quote_token@,
            price_usd: self.price_usd.deep_view(),
            price_native: self.price_native.deep_view(),
            liquidity_usd: self.liquidity_usd.deep_view(),
            liquidity_base: self.liquidity_base.deep_view(),
            liquidity_quote: self.liquidity_quote.deep_view(),
        }
    }
}

impl DeepView for RawPairRecord {
    type V = RawPairRecordView;

    open spec fn deep_view(&self) -> RawPairRecordView {
        self.view()
    }
}

/// Why a record was rejected during conversion.
#[derive(Debug, Clone, Copy, PartialEq, Eq, Structural)]
pub enum ConvertError {
    /// Neither a USD nor a native price field was present.
    MissingPrice,
    /// The price did not parse to a positive amount.
    NonPositivePrice,
    /// The USD liquidity was below the fixed floor.
    LowLiquidity,
}

/// An error surfaced by a refresh: the fetch mechanism itself failed.
#[derive(Debug)]
pub struct FeedError {
    pub message: String,
}

/// The amount a numeric field denotes: its parsed value, zero when
/// the field is missing or does not parse.
pub open spec fn spec_amount_or_zero(o: Option<Seq<char>>) -> int {
    match o {
        Some(s) => match spec_parse_decimal(s) {
            Some(v) => v,
            None => 0,
        },
        None => 0,
    }
}

/// The price string a record offers: USD-denominated if present,
/// otherwise the native-unit one.
pub open spec fn spec_chosen_price(r: RawPairRecordView) -> Option<Seq<char>> {
    if r.price_usd is Some {
        r.price_usd
    } else {
        r.price_native
    }
}

/// The record belongs to the target chain and an allow-listed exchange.
pub open spec fn spec_is_supported(r: RawPairRecordView) -> bool {
    r.chain_id == "metis"@ && (r.dex_id == "netswap"@ || r.dex_id == "tethys"@)
}

/// What conversion yields on a record: the validated pair, or the
/// reason for rejection.
pub open spec fn spec_convert(r: RawPairRecordView) -> Result<PairView, ConvertError> {
    if spec_chosen_price(r) is None {
        Err(ConvertError::MissingPrice)
    } else if spec_amount_or_zero(spec_chosen_price(r)) <= 0 {
        Err(ConvertError::NonPositivePrice)
    } else if spec_amount_or_zero(r.liquidity_usd) < MIN_LIQUIDITY_RAW as int {
        Err(ConvertError::LowLiquidity)
    } else {
        Ok(
            PairView {
                base_token: TokenView {
                    symbol: r.base_token.symbol,
                    name: r.base_token.name,
                    decimals: 18,
                    address: r.base_token.address,
                },
                quote_token: TokenView {
                    symbol: r.quote_token.symbol,
                    name: r.quote_token.name,
                    decimals: 18,
                    address: r.quote_token.address,
                },
                exchange: ExchangeView {
                    name: r.dex_id,
                    chain: "Metis"@,
                    router_address: r.pair_address,
                },
                price: spec_amount_or_zero(spec_chosen_price(r)),
                liquidity: spec_amount_or_zero(r.liquidity_usd),
                reserve_base: spec_amount_or_zero(r.liquidity_base),
                reserve_quote: spec_amount_or_zero(r.liquidity_quote),
            },
        )
    }
}

/// String equality by contents.
fn str_eq(a: &str, b: &str) -> (r: bool)
    ensures
        r == (a@ == b@),
{
    let s1 = a.to_owned();
    let s2 = b.to_owned();
    s1 == s2
}

/// The parsed amount of an optional numeric string field, zero when
/// missing or malformed.
fn amount_or_zero(o: &Option<String>) -> (r: Dec)
    ensures
        r.spec_raw() == spec_amount_or_zero(o.deep_view()),
        r.wf(),
{
    match o {
        Some(s) => match parse_dec(s.as_str()) {
            Some(d) => d,
            None => Dec::zero(),
        },
        None => Dec::zero(),
    }
}

/// Convert one raw record into the domain model, rejecting records
/// with no usable price, a non-positive price, or too little
/// liquidity.  Token precision is fixed at eighteen decimals.
pub fn convert_to_trading_pair(data: RawPairRecord) -> (r: Result<TradingPair, ConvertError>)
    ensures
        match r {
            Ok(p) => spec_convert(data@) == Ok::<PairView, ConvertError>(p@) && p@.wf(),
            Err(e) => spec_convert(data@) == Err::<PairView, ConvertError>(e),
        },
{
    let chosen: &String = match &data.price_usd {
        Some(s) => s,
        None => match &data.price_native {
            Some(s) => s,
            None => {
                return Err(ConvertError::MissingPrice);
            },
        },
    };
    let price = match parse_dec(chosen.as_str()) {
        Some(d) => d,
        None => Dec::zero(),
    };
    proof {
        assert(price.spec_raw() == spec_amount_or_zero(spec_chosen_price(data@)));
    }
    if !price.is_positive() {
        return Err(ConvertError::NonPositivePrice);
    }
    let liquidity = amount_or_zero(&data.liquidity_usd);
    if liquidity.raw() < MIN_LIQUIDITY_RAW {
        return Err(ConvertError::LowLiquidity);
    }
    let reserve_base = amount_or_zero(&data.liquidity_base);
    let reserve_quote = amount_or_zero(&data.liquidity_quote);
    let base_token = Token {
        symbol: data.base_token.symbol.clone(),
        name: data.base_token.name.clone(),
        decimals: 18,
        address: data.base_token.address.clone(),
    };
    let quote_token = Token {
        symbol: data.quote_token.symbol.clone(),
        name: data.quote_token.name.clone(),
        decimals: 18,
        address: data.quote_token.address.clone(),
    };
    let exchange = Exchange {
        name: data.dex_id.clone(),
        chain: "Metis".to_owned(),
        router_address: data.pair_address.clone(),
    };
    Ok(
        TradingPair {
            base_token,
            quote_token,
            exchange,
            price,
            liquidity,
            reserve_base,
            reserve_quote,
        },
    )
}

/// Some pair of `s` already carries the full identifier `id`.
pub open spec fn spec_contains_full_id(s: Seq<PairView>, id: Seq<char>) -> bool {
    exists|i: int| 0 <= i < s.len() && s[i].full_id() == id
}

/// What one whole ingestion pass yields: records filtered to the
/// supported chain and exchanges, converted, rejects dropped, and
/// later records whose full identifier was already produced dropped
/// (first seen wins).
pub open spec fn spec_ingest(records: Seq<RawPairRecordView>) -> Seq<PairView>
    decreases records.len(),
{
    if records.len() == 0 {
        Seq::<PairView>::empty()
    } else {
        let prior = spec_ingest(records.drop_last());
        let d = records.last();
        if spec_is_supported(d) && spec_convert(d) is Ok && !spec_contains_full_id(
            prior,
            spec_convert(d)->Ok_0.full_id(),
        ) {
            prior.push(spec_convert(d)->Ok_0)
        } else {
            prior
        }
    }
}

/// Whether `pairs` already holds a pair with the given full
/// identifier.
fn contains_full_id(pairs: &Vec<TradingPair>, id: &String) -> (r: bool)
    ensures
        r == spec_contains_full_id(pairs.deep_view(), id@),
{
    let mut i: usize = 0;
    while i < pairs.len()
        invariant
            i <= pairs@.len(),
            forall|j: int| 0 <= j < i ==> #[trigger] pairs.deep_view()[j].full_id() != id@,
        decreases pairs@.len() - i,
    {
        let pid = pairs[i].full_id();
        if pid == *id {
            proof {
                assert(pairs.deep_view()[i as int].full_id() == id@);
            }
            return true;
        }
        i = i + 1;
    }
    false
}

/// Run every record through filtering, conversion and deduplication,
/// in order, producing one snapshot.
pub fn ingest_records(records: Vec<RawPairRecord>) -> (r: Vec<TradingPair>)
    ensures
        r.deep_view() == spec_ingest(records.deep_view()),
{
    let ghost all = records.deep_view();
    let mut rest = records;
    let mut result: Vec<TradingPair> = Vec::new();
    let mut processed: usize = 0;
    let n = rest.len();
    proof {
        assert(all.len() == n as int);
        assert(all.take(0) =~= Seq::<RawPairRecordView>::empty());
    }
    while rest.len() > 0
        invariant
            processed + rest@.len() == all.len(),
            all.len() <= usize::MAX,
            rest.deep_view() =~= all.skip(processed as int),
            result.deep_view() == spec_ingest(all.take(processed as int)),
        decreases rest@.len(),
    {
        let ghost prev = rest@;
        let ghost prev_deep = rest.deep_view();
        let d = rest.remove(0);
        proof {
            assert(d.deep_view() == prev_deep[0]);
            assert(d@ == all[processed as int]);
            assert forall|k: int| 0 <= k < rest.deep_view().len() implies rest.deep_view()[k]
                == all.skip(processed as int + 1)[k] by {
                assert(rest@[k] == prev[k + 1]);
                assert(rest.deep_view()[k] == prev_deep[k + 1]);
                assert(prev_deep[k + 1] == all.skip(processed as int)[k + 1]);
            }
            assert(rest.deep_view() =~= all.skip(processed as int + 1));
        }
        let supported = str_eq(d.chain_id.as_str(), "metis") && (str_eq(
            d.dex_id.as_str(),
            "netswap",
        ) || str_eq(d.dex_id.as_str(), "tethys"));
        proof {
            assert(supported == spec_is_supported(all[processed as int]));
        }
        let ghost dv = d@;
        if supported {
            match convert_to_trading_pair(d) {
                Ok(pair) => {
                    let id = pair.full_id();
                    if !contains_full_id(&result, &id) {
                        result.push(pair);
                    }
                },
                Err(_) => {},
            }
        }
        processed = processed + 1;
        proof {
            assert(all.take(processed as int).drop_last() =~= all.take(processed as int - 1));
            assert(all.take(processed as int).last() == dv);
        }
    }
    proof {
        assert(all.take(processed as int) =~= all);
    }
    result
}

/// The amount a field denotes never lies beyond the representable
/// range.
proof fn lemma_amount_bounds(o: Option<Seq<char>>)
    ensures
        -(crate::dec::MAX_RAW as int) <= spec_amount_or_zero(o) <= crate::dec::MAX_RAW as int,
{
    match o {
        Some(s) => {
            crate::dec::lemma_parse_decimal_bounds(s);
        },
        None => {},
    }
}

/// For every record that conversion accepts, the resulting pair's
/// identifiers are built exactly from the record's symbols and
/// exchange: `base/quote` and `exchange:base/quote`.
pub proof fn lemma_converted_pair_ids(r: RawPairRecordView)
    requires
        spec_convert(r) is Ok,
    ensures
        (spec_convert(r)->Ok_0).pair_id() == r.base_token.symbol + seq!['/'] + r.quote_token.symbol,
        (spec_convert(r)->Ok_0).full_id() == r.dex_id + seq![':'] + r.base_token.symbol + seq!['/']
            + r.quote_token.symbol,
{
}

/// Ingestion is a function of the fetched records alone, so two
/// refreshes against an unchanged upstream feed leave the pair-list
/// cache with the same deduplicated contents both times.
pub proof fn lemma_refresh_idempotent(
    f1: MetisPriceFeed,
    f2: MetisPriceFeed,
    records: Seq<RawPairRecordView>,
)
    requires
        f1.spec_pairs() == spec_ingest(records),
        f2.spec_pairs() == spec_ingest(records),
    ensures
        f1.spec_pairs() == f2.spec_pairs(),
{
}

/// Every pair an ingestion pass yields was validated: its price is
/// positive, its liquidity is at or above the floor, and its amounts
/// lie in the representable range.  A record below the floor or
/// without a positive price contributes nothing to the snapshot.
pub proof fn lemma_ingest_validated(records: Seq<RawPairRecordView>)
    ensures
        forall|k: int|
            0 <= k < spec_ingest(records).len() ==> {
                let p = #[trigger] spec_ingest(records)[k];
                &&& p.wf()
                &&& p.price > 0
                &&& p.liquidity >= MIN_LIQUIDITY_RAW as int
            },
    decreases records.len(),
{
    if records.len() > 0 {
        lemma_ingest_validated(records.drop_last());
        let prior = spec_ingest(records.drop_last());
        let d = records.last();
        if spec_is_supported(d) && spec_convert(d) is Ok && !spec_contains_full_id(
            prior,
            spec_convert(d)->Ok_0.full_id(),
        ) {
            lemma_amount_bounds(spec_chosen_price(d));
            lemma_amount_bounds(d.liquidity_usd);
            lemma_amount_bounds(d.liquidity_base);
            lemma_amount_bounds(d.liquidity_quote);
            assert forall|k: int| 0 <= k < spec_ingest(records).len() implies {
                let p = #[trigger] spec_ingest(records)[k];
                &&& p.wf()
                &&& p.price > 0
                &&& p.liquidity >= MIN_LIQUIDITY_RAW as int
            } by {
                if k < prior.len() {
                    assert(spec_ingest(records)[k] == prior[k]);
                }
            }
        }
    }
}

/// Within one ingestion pass, full identifiers are unique: a later
/// record whose pair would carry an identifier already produced is
/// dropped, and the first-seen pair stays.
pub proof fn lemma_ingest_distinct_full_ids(records: Seq<RawPairRecordView>)
    ensures
        forall|i: int, j: int|
            #![trigger spec_ingest(records)[i], spec_ingest(records)[j]]
            0 <= i < j < spec_ingest(records).len() ==> spec_ingest(records)[i].full_id()
                != spec_ingest(records)[j].full_id(),
    decreases records.len(),
{
    if records.len() > 0 {
        lemma_ingest_distinct_full_ids(records.drop_last());
        let prior = spec_ingest(records.drop_last());
        let d = records.last();
        if spec_is_supported(d) && spec_convert(d) is Ok && !spec_contains_full_id(
            prior,
            spec_convert(d)->Ok_0.full_id(),
        ) {
            let p = spec_convert(d)->Ok_0;
            assert forall|i: int, j: int|
                #![trigger spec_ingest(records)[i], spec_ingest(records)[j]]
                0 <= i < j < spec_ingest(records).len() implies spec_ingest(records)[i].full_id()
                != spec_ingest(records)[j].full_id() by {
                if j < prior.len() {
                    assert(spec_ingest(records)[i] == prior[i]);
                    assert(spec_ingest(records)[j] == prior[j]);
                } else {
                    assert(spec_ingest(records)[i] == prior[i]);
                    assert(spec_ingest(records)[j] == p);
                    assert(!(exists|m: int|
                        0 <= m < prior.len() && prior[m].full_id() == p.full_id()));
                }
            }
        }
    }
}

/// The last pair of `pairs` whose base and quote symbols are `b` and
/// `q`, scanning from the end — the one whose cache entry survives a
/// rebuild that writes entries in order.
pub open spec fn spec_last_with_symbols(pairs: Seq<PairView>, b: Seq<char>, q: Seq<char>) -> Option<
    PairView,
>
    decreases pairs.len(),
{
    if pairs.len() == 0 {
        None
    } else if pairs.last().base_token.symbol == b && pairs.last().quote_token.symbol == q {
        Some(pairs.last())
    } else {
        spec_last_with_symbols(pairs.drop_last(), b, q)
    }
}

/// The first pair of `pairs` whose base and quote symbols are `b` and
/// `q` — what a fixture lookup finds.
pub open spec fn spec_first_with_symbols(pairs: Seq<PairView>, b: Seq<char>, q: Seq<char>) -> Option<
    PairView,
>
    decreases pairs.len(),
{
    if pairs.len() == 0 {
        None
    } else if pairs[0].base_token.symbol == b && pairs[0].quote_token.symbol == q {
        Some(pairs[0])
    } else {
        spec_first_with_symbols(pairs.drop_first(), b, q)
    }
}

/// The source label a rebuilt cache entry carries.
pub open spec fn spec_source_label(exchange_name: Seq<char>) -> Seq<char> {
    "DEX Screener - "@ + exchange_name
}

/// The stamp a rebuild at clock reading `now` writes over `prior`:
/// the reading, unless the prior entry is younger — so a key's
/// timestamp never decreases, even when the wall clock regresses.
pub open spec fn spec_refresh_stamp(prior: Option<CachedPrice>, now: int) -> int {
    match prior {
        Some(c) => if c.timestamp_seconds > now {
            c.timestamp_seconds as int
        } else {
            now
        },
        None => now,
    }
}

/// `c` is the cache entry a rebuild writes for a pair with the given
/// metric value, stamp and exchange name.
pub open spec fn spec_entry_is(c: CachedPrice, value: int, stamp: int, exchange_name: Seq<char>) -> bool {
    &&& c.price@ == value
    &&& c.timestamp_seconds == stamp
    &&& c.source@ == spec_source_label(exchange_name)
}

/// After a rebuild from `pairs` at clock reading `now`: for every
/// pair identity the snapshot mentions, the entry of `kind` holds the
/// last such pair's metric, stamped with `spec_refresh_stamp` of its
/// prior entry; every other entry is exactly as it was.
pub open spec fn spec_refreshed_metric(
    cache: CacheStore,
    old_cache: CacheStore,
    pairs: Seq<PairView>,
    now: int,
    kind: MetricKind,
) -> bool {
    forall|b: Seq<char>, q: Seq<char>|
        #![trigger cache.spec_get(b, q, kind)]
        match spec_last_with_symbols(pairs, b, q) {
            Some(p) => match cache.spec_get(b, q, kind) {
                Some(c) => spec_entry_is(
                    c,
                    if kind == MetricKind::Price {
                        p.price
                    } else {
                        p.liquidity
                    },
                    spec_refresh_stamp(old_cache.spec_get(b, q, kind), now),
                    p.exchange.name,
                ),
                None => false,
            },
            None => cache.spec_get(b, q, kind) == old_cache.spec_get(b, q, kind),
        }
}

/// Both metric kinds rebuilt from `pairs` at `now`.
pub open spec fn spec_refreshed(
    cache: CacheStore,
    old_cache: CacheStore,
    pairs: Seq<PairView>,
    now: int,
) -> bool {
    &&& spec_refreshed_metric(cache, old_cache, pairs, now, MetricKind::Price)
    &&& spec_refreshed_metric(cache, old_cache, pairs, now, MetricKind::Liquidity)
}

/// Per-key timestamps are monotonically non-decreasing: across a
/// rebuild, whatever the clock read, an entry a key already had is
/// overwritten with a stamp no earlier than its prior one, a fresh
/// entry is stamped non-negatively, and a key the rebuild does not
/// write keeps its entry — so no key's entry ever disappears or moves
/// backward in time.
pub proof fn lemma_refresh_timestamps_monotonic(
    cache: CacheStore,
    old_cache: CacheStore,
    pairs: Seq<PairView>,
    now: int,
    b: Seq<char>,
    q: Seq<char>,
    kind: MetricKind,
)
    requires
        spec_refreshed(cache, old_cache, pairs, now),
        now >= 0,
    ensures
        match (cache.spec_get(b, q, kind), old_cache.spec_get(b, q, kind)) {
            (Some(c), Some(prior)) => c.timestamp_seconds >= prior.timestamp_seconds,
            (Some(c), None) => c.timestamp_seconds >= 0,
            (None, prior) => prior is None,
        },
{
    if kind == MetricKind::Price {
        assert(cache.spec_get(b, q, MetricKind::Price) == cache.spec_get(b, q, kind));
    } else {
        assert(kind == MetricKind::Liquidity);
        assert(cache.spec_get(b, q, MetricKind::Liquidity) == cache.spec_get(b, q, kind));
    }
}

/// A field-for-field copy of a snapshot.
fn duplicate_pairs(v: &Vec<TradingPair>) -> (r: Vec<TradingPair>)
    ensures
        r@ == v@,
{
    let mut r: Vec<TradingPair> = Vec::new();
    let mut i: usize = 0;
    while i < v.len()
        invariant
            i <= v@.len(),
            r@ == v@.take(i as int),
        decreases v@.len() - i,
    {
        r.push(v[i].duplicate());
        proof {
            assert(v@.take(i as int + 1) =~= v@.take(i as int).push(v@[i as int]));
        }
        i = i + 1;
    }
    proof {
        assert(v@.take(v@.len() as int) =~= v@);
    }
    r
}

/// The capability contract any price provider satisfies: list the
/// snapshot, answer point lookups, and rebuild from one fetch
/// outcome.
pub trait PriceFeed: Sized {
    /// The provider's current snapshot, as its mathematical model.
    spec fn spec_pairs(&self) -> Seq<PairView>;

    /// The provider's internal well-formedness.
    spec fn feed_wf(&self) -> bool;

    /// All trading pairs of the most recent snapshot.
    fn get_trading_pairs(&self) -> (r: Vec<TradingPair>)
        ensures
            r.deep_view() == self.spec_pairs(),
    ;

    /// The price the provider can currently serve for a pair, if any.
    fn get_price(&self, base: &str, quote: &str) -> (r: Option<Dec>);

    /// The liquidity the provider can currently serve for a pair, if
    /// any.
    fn get_liquidity(&self, base: &str, quote: &str) -> (r: Option<Dec>);

    /// Replace the provider's data from one fetch outcome.
    fn refresh(&mut self, fetched: Result<Vec<RawPairRecord>, FeedError>) -> (r: Result<
        (),
        FeedError,
    >)
        requires
            old(self).feed_wf(),
        ensures
            final(self).feed_wf(),
    ;
}

/// The network-backed source for the target chain: it owns the pair
/// cache and the per-pair metric cache, and rebuilds both from the
/// raw records a fetch produced.  The fetch itself — one query per
/// search term against the endpoint `search_url` names — happens
/// outside the library.
pub struct MetisPriceFeed {
    dex_screener_url: String,
    cache: CacheStore,
    pairs_cache: Vec<TradingPair>,
}

impl MetisPriceFeed {
    pub closed spec fn spec_url(self) -> Seq<char> {
        self.dex_screener_url@
    }

    pub closed spec fn spec_cache(self) -> CacheStore {
        self.cache
    }

    pub fn new() -> (r: MetisPriceFeed)
        ensures
            r.feed_wf(),
            r.spec_pairs().len() == 0,
            r.spec_url() == "https://api.dexscreener.com/latest/dex"@,
            forall|b: Seq<char>, q: Seq<char>, kd: MetricKind|
                #[trigger] r.spec_cache().spec_get(b, q, kd) is None,
    {
        MetisPriceFeed {
            dex_screener_url: "https://api.dexscreener.com/latest/dex".to_owned(),
            cache: CacheStore::new(),
            pairs_cache: Vec::new(),
        }
    }

    /// The query URL for one search term.
    pub fn search_url(&self, term: &str) -> (r: String)
        ensures
            r@ == self.spec_url() + "/search?q="@ + term@,
    {
        let mut r = self.dex_screener_url.clone();
        r.append("/search?q=");
        r.append(term);
        r
    }

    /// The fixed search terms a full fetch queries, in order.
    pub fn search_terms() -> (r: Vec<String>)
        ensures
            r@.len() == 3,
            r@[0]@ == "metis"@,
            r@[1]@ == "netswap"@,
            r@[2]@ == "tethys"@,
    {
        let mut r: Vec<String> = Vec::new();
        r.push("metis".to_owned());
        r.push("netswap".to_owned());
        r.push("tethys".to_owned());
        r
    }

    /// Whether a snapshot is already cached; when not, the first
    /// listing triggers a warm-up fetch.
    pub fn has_snapshot(&self) -> (r: bool)
        ensures
            r == (self.spec_pairs().len() != 0),
    {
        self.pairs_cache.len() != 0
    }

    /// Store the snapshot a warm-up fetch produced, leaving the
    /// per-pair metric cache untouched.
    pub fn warm_up_from_records(&mut self, records: Vec<RawPairRecord>)
        ensures
            final(self).spec_pairs() == spec_ingest(records.deep_view()),
            final(self).spec_cache() == old(self).spec_cache(),
            final(self).spec_url() == old(self).spec_url(),
    {
        self.pairs_cache = ingest_records(records);
    }

    /// Price lookup against an explicit clock reading: the cached
    /// price, unless absent or older than `max_age_seconds`.
    pub fn lookup_price_at(
        &self,
        base: &str,
        quote: &str,
        max_age_seconds: i64,
        now_seconds: i64,
    ) -> (r: Option<Dec>)
        ensures
            r == (match self.spec_cache().spec_get(base@, quote@, MetricKind::Price) {
                Some(c) => if !spec_stale(
                    c.timestamp_seconds as int,
                    max_age_seconds as int,
                    now_seconds as int,
                ) {
                    Some(c.price)
                } else {
                    None::<Dec>
                },
                None => None::<Dec>,
            }),
    {
        match self.cache.get(base, quote, MetricKind::Price) {
            Some(c) => if !c.is_stale_at(max_age_seconds, now_seconds) {
                Some(c.price)
            } else {
                None
            },
            None => None,
        }
    }

    /// Rebuild the pair-list cache and every per-pair metric entry
    /// from the given records.  An entry is stamped with
    /// `now_seconds`, unless its prior stamp is younger: per-key
    /// timestamps never decrease.
    fn apply_refresh(&mut self, records: Vec<RawPairRecord>, now_seconds: i64)
        requires
            old(self).feed_wf(),
        ensures
            final(self).feed_wf(),
            final(self).spec_url() == old(self).spec_url(),
            final(self).spec_pairs() == spec_ingest(records.deep_view()),
            spec_refreshed(
                final(self).spec_cache(),
                old(self).spec_cache(),
                final(self).spec_pairs(),
                now_seconds as int,
            ),
    {
        let ghost old_cache = self.cache;
        let pairs = ingest_records(records);
        let ghost pv = pairs.deep_view();
        let mut i: usize = 0;
        proof {
            assert(pv.take(0) =~= Seq::<PairView>::empty());
        }
        while i < pairs.len()
            invariant
                i <= pairs@.len(),
                pv == pairs.deep_view(),
                self.cache.wf(),
                self.pairs_cache == old(self).pairs_cache,
                self.dex_screener_url == old(self).dex_screener_url,
                spec_refreshed_metric(self.cache, old_cache, pv.take(i as int), now_seconds as int, MetricKind::Price),
                spec_refreshed_metric(self.cache, old_cache, pv.take(i as int), now_seconds as int, MetricKind::Liquidity),
            decreases pairs@.len() - i,
        {
            let ghost start_cache = self.cache;
            let p = &pairs[i];
            proof {
                assert(p@ == pv[i as int]);
            }
            let ghost bsym = pv[i as int].base_token.symbol;
            let ghost qsym = pv[i as int].quote_token.symbol;
            let stamp_p = match self.cache.get(
                p.base_token.symbol.as_str(),
                p.quote_token.symbol.as_str(),
                MetricKind::Price,
            ) {
                Some(c) => if c.timestamp_seconds > now_seconds {
                    c.timestamp_seconds
                } else {
                    now_seconds
                },
                None => now_seconds,
            };
            let stamp_l = match self.cache.get(
                p.base_token.symbol.as_str(),
                p.quote_token.symbol.as_str(),
                MetricKind::Liquidity,
            ) {
                Some(c) => if c.timestamp_seconds > now_seconds {
                    c.timestamp_seconds
                } else {
                    now_seconds
                },
                None => now_seconds,
            };
            proof {
                assert(stamp_p as int == spec_refresh_stamp(
                    old_cache.spec_get(bsym, qsym, MetricKind::Price),
                    now_seconds as int,
                )) by {
                    assert(self.cache.spec_get(bsym, qsym, MetricKind::Price) == start_cache.spec_get(
                        bsym,
                        qsym,
                        MetricKind::Price,
                    ));
                }
                assert(stamp_l as int == spec_refresh_stamp(
                    old_cache.spec_get(bsym, qsym, MetricKind::Liquidity),
                    now_seconds as int,
                )) by {
                    assert(self.cache.spec_get(bsym, qsym, MetricKind::Liquidity)
                        == start_cache.spec_get(bsym, qsym, MetricKind::Liquidity));
                }
            }
            let mut source_p = "DEX Screener - ".to_owned();
            source_p.append(p.exchange.name.as_str());
            let key_p = CacheKey {
                base: p.base_token.symbol.clone(),
                quote: p.quote_token.symbol.clone(),
                kind: MetricKind::Price,
            };
            let entry_p = CachedPrice {
                price: p.price,
                timestamp_seconds: stamp_p,
                source: source_p,
            };
            self.cache.insert(key_p, entry_p);
            let ghost mid_cache = self.cache;
            let mut source_l = "DEX Screener - ".to_owned();
            source_l.append(p.exchange.name.as_str());
            let key_l = CacheKey {
                base: p.base_token.symbol.clone(),
                quote: p.quote_token.symbol.clone(),
                kind: MetricKind::Liquidity,
            };
            let entry_l = CachedPrice {
                price: p.liquidity,
                timestamp_seconds: stamp_l,
                source: source_l,
            };
            self.cache.insert(key_l, entry_l);
            proof {
                let taken = pv.take(i as int + 1);
                assert(taken.drop_last() =~= pv.take(i as int));
                assert(taken.last() == pv[i as int]);
                assert(spec_refreshed_metric(
                    self.cache,
                    old_cache,
                    taken,
                    now_seconds as int,
                    MetricKind::Price,
                )) by {
                    assert forall|b: Seq<char>, q: Seq<char>|
                        #![trigger self.cache.spec_get(b, q, MetricKind::Price)]
                        match spec_last_with_symbols(taken, b, q) {
                            Some(pp) => match self.cache.spec_get(b, q, MetricKind::Price) {
                                Some(c) => spec_entry_is(
                                    c,
                                    pp.price,
                                    spec_refresh_stamp(
                                        old_cache.spec_get(b, q, MetricKind::Price),
                                        now_seconds as int,
                                    ),
                                    pp.exchange.name,
                                ),
                                None => false,
                            },
                            None => self.cache.spec_get(b, q, MetricKind::Price) == old_cache.spec_get(
                                b,
                                q,
                                MetricKind::Price,
                            ),
                        } by {
                        assert(self.cache.spec_get(b, q, MetricKind::Price) == if spec_key_is(
                            key_l,
                            b,
                            q,
                            MetricKind::Price,
                        ) {
                            Some(entry_l)
                        } else {
                            mid_cache.spec_get(b, q, MetricKind::Price)
                        });
                        assert(mid_cache.spec_get(b, q, MetricKind::Price) == if spec_key_is(
                            key_p,
                            b,
                            q,
                            MetricKind::Price,
                        ) {
                            Some(entry_p)
                        } else {
                            start_cache.spec_get(b, q, MetricKind::Price)
                        });
                        assert(start_cache.spec_get(b, q, MetricKind::Price) == if spec_last_with_symbols(
                            pv.take(i as int),
                            b,
                            q,
                        ) is Some {
                            start_cache.spec_get(b, q, MetricKind::Price)
                        } else {
                            old_cache.spec_get(b, q, MetricKind::Price)
                        });
                    }
                }
                assert(spec_refreshed_metric(
                    self.cache,
                    old_cache,
                    taken,
                    now_seconds as int,
                    MetricKind::Liquidity,
                )) by {
                    assert forall|b: Seq<char>, q: Seq<char>|
                        #![trigger self.cache.spec_get(b, q, MetricKind::Liquidity)]
                        match spec_last_with_symbols(taken, b, q) {
                            Some(pp) => match self.cache.spec_get(b, q, MetricKind::Liquidity) {
                                Some(c) => spec_entry_is(
                                    c,
                                    pp.liquidity,
                                    spec_refresh_stamp(
                                        old_cache.spec_get(b, q, MetricKind::Liquidity),
                                        now_seconds as int,
                                    ),
                                    pp.exchange.name,
                                ),
                                None => false,
                            },
                            None => self.cache.spec_get(b, q, MetricKind::Liquidity) == old_cache.spec_get(
                                b,
                                q,
                                MetricKind::Liquidity,
                            ),
                        } by {
                        assert(self.cache.spec_get(b, q, MetricKind::Liquidity) == if spec_key_is(
                            key_l,
                            b,
                            q,
                            MetricKind::Liquidity,
                        ) {
                            Some(entry_l)
                        } else {
                            mid_cache.spec_get(b, q, MetricKind::Liquidity)
                        });
                        assert(mid_cache.spec_get(b, q, MetricKind::Liquidity) == if spec_key_is(
                            key_p,
                            b,
                            q,
                            MetricKind::Liquidity,
                        ) {
                            Some(entry_p)
                        } else {
                            start_cache.spec_get(b, q, MetricKind::Liquidity)
                        });
                        assert(start_cache.spec_get(b, q, MetricKind::Liquidity) == if spec_last_with_symbols(
                            pv.take(i as int),
                            b,
                            q,
                        ) is Some {
                            start_cache.spec_get(b, q, MetricKind::Liquidity)
                        } else {
                            old_cache.spec_get(b, q, MetricKind::Liquidity)
                        });
                    }
                }
            }
            i = i + 1;
        }
        proof {
            assert(pv.take(pairs@.len() as int) =~= pv);
        }
        self.pairs_cache = pairs;
    }
}

impl PriceFeed for MetisPriceFeed {
    closed spec fn spec_pairs(&self) -> Seq<PairView> {
        self.pairs_cache.deep_view()
    }

    open spec fn feed_wf(&self) -> bool {
        self.spec_cache().wf()
    }

    /// The cached snapshot.  A caller that finds `has_snapshot` false
    /// performs the warm-up fetch and hands the records to
    /// `warm_up_from_records` first.
    fn get_trading_pairs(&self) -> (r: Vec<TradingPair>) {
        duplicate_pairs(&self.pairs_cache)
    }

    /// The cached price, unless absent or older than the fixed
    /// freshness window under the wall clock now.  The clock reading
    /// cannot be pinned down, but whatever it was, a price served is
    /// the cached one; `lookup_price_at` carries the exact contract.
    fn get_price(&self, base: &str, quote: &str) -> (r: Option<Dec>)
        ensures
            match r {
                Some(d) => match self.spec_cache().spec_get(base@, quote@, MetricKind::Price) {
                    Some(c) => c.price == d,
                    None => false,
                },
                None => true,
            },
    {
        let now = clock::now_unix_seconds();
        self.lookup_price_at(base, quote, PRICE_MAX_AGE_SECONDS, now)
    }

    /// The cached liquidity; no staleness window is applied on this
    /// path.
    fn get_liquidity(&self, base: &str, quote: &str) -> (r: Option<Dec>)
        ensures
            r == (match self.spec_cache().spec_get(base@, quote@, MetricKind::Liquidity) {
                Some(c) => Some(c.price),
                None => None::<Dec>,
            }),
    {
        match self.cache.get(base, quote, MetricKind::Liquidity) {
            Some(c) => Some(c.price),
            None => None,
        }
    }

    /// Rebuild from a fetch outcome.  A failed fetch is passed back
    /// unchanged and leaves every cache exactly as it was; a
    /// successful one replaces the snapshot wholesale and rewrites
    /// the per-pair entries, stamped with one clock reading — or with
    /// an entry's prior stamp where that is younger, so per-key
    /// timestamps never decrease.
    fn refresh(&mut self, fetched: Result<Vec<RawPairRecord>, FeedError>) -> (r: Result<
        (),
        FeedError,
    >)
        ensures
            match fetched {
                Ok(records) => {
                    &&& r is Ok
                    &&& final(self).spec_pairs() == spec_ingest(records.deep_view())
                    &&& final(self).spec_url() == old(self).spec_url()
                    &&& exists|now: int|
                        now >= 0 && #[trigger] spec_refreshed(
                            final(self).spec_cache(),
                            old(self).spec_cache(),
                            final(self).spec_pairs(),
                            now,
                        )
                },
                Err(e) => r == Err::<(), FeedError>(e) && *final(self) == *old(self),
            },
    {
        match fetched {
            Ok(records) => {
                let now = clock::now_unix_seconds();
                self.apply_refresh(records, now);
                Ok(())
            },
            Err(e) => Err(e),
        }
    }
}

impl Default for MetisPriceFeed {
    fn default() -> (r: Self)
        ensures
            r.feed_wf(),
            r.spec_pairs().len() == 0,
            r.spec_url() == "https://api.dexscreener.com/latest/dex"@,
    {
        Self::new()
    }
}

proof fn lemma_first_with_symbols_skip(pairs: Seq<PairView>, i: int, b: Seq<char>, q: Seq<char>)
    requires
        0 <= i <= pairs.len(),
        forall|j: int|
            0 <= j < i ==> !((#[trigger] pairs[j]).base_token.symbol == b
                && pairs[j].quote_token.symbol == q),
    ensures
        spec_first_with_symbols(pairs, b, q) == spec_first_with_symbols(pairs.skip(i), b, q),
    decreases i,
{
    if i > 0 {
        let rest = pairs.drop_first();
        assert(forall|j: int|
            0 <= j < i - 1 ==> !((#[trigger] rest[j]).base_token.symbol == b
                && rest[j].quote_token.symbol == q));
        lemma_first_with_symbols_skip(rest, i - 1, b, q);
        assert(rest.skip(i - 1) =~= pairs.skip(i));
    } else {
        assert(pairs.skip(0) =~= pairs);
    }
}

/// A deterministic in-memory source: a fixed fixture of four pairs
/// across two exchanges, for exercising the downstream logic without
/// any network.
pub struct MockPriceFeed {
    pairs: Vec<TradingPair>,
}

/// The fixture tokens: wrapped ether, the USD stablecoin, and the
/// chain's own token.
pub open spec fn spec_mock_weth() -> TokenView {
    TokenView {
        symbol: "WETH"@,
        name: "Wrapped Ether"@,
        decimals: 18,
        address: "0x420000000000000000000000000000000000000a"@,
    }
}

pub open spec fn spec_mock_usdc() -> TokenView {
    TokenView {
        symbol: "USDC"@,
        name: "USD Coin"@,
        decimals: 6,
        address: "0xEA32A96608495e54156Ae48931A7c20f0dcc1a21"@,
    }
}

pub open spec fn spec_mock_metis() -> TokenView {
    TokenView {
        symbol: "METIS"@,
        name: "Metis Token"@,
        decimals: 18,
        address: "0xDeadDeAddeAddEAddeadDEaDDEAdDeaDDeAD0000"@,
    }
}

/// The fixture exchanges.
pub open spec fn spec_mock_netswap() -> ExchangeView {
    ExchangeView {
        name: "netswap"@,
        chain: "Metis"@,
        router_address: "0x1E876cCe41B7b844FDe09E38Fa1cf00f213bFf56"@,
    }
}

pub open spec fn spec_mock_tethys() -> ExchangeView {
    ExchangeView {
        name: "tethys"@,
        chain: "Metis"@,
        router_address: "0x81b9FA50D5f5155Ee17817C21702C3AE4780AD09"@,
    }
}

/// The fixture snapshot, pair for pair and field for field: the same
/// base/quote identity on both exchanges, twice over.
pub open spec fn spec_mock_pairs() -> Seq<PairView> {
    seq![
        PairView {
            base_token: spec_mock_weth(),
            quote_token: spec_mock_usdc(),
            exchange: spec_mock_netswap(),
            price: 1850 * (crate::dec::UNIT as int),
            liquidity: 500000 * (crate::dec::UNIT as int),
            reserve_base: 270 * (crate::dec::UNIT as int),
            reserve_quote: 500000 * (crate::dec::UNIT as int),
        },
        PairView {
            base_token: spec_mock_weth(),
            quote_token: spec_mock_usdc(),
            exchange: spec_mock_tethys(),
            price: 1852 * (crate::dec::UNIT as int),
            liquidity: 350000 * (crate::dec::UNIT as int),
            reserve_base: 189 * (crate::dec::UNIT as int),
            reserve_quote: 350000 * (crate::dec::UNIT as int),
        },
        PairView {
            base_token: spec_mock_metis(),
            quote_token: spec_mock_usdc(),
            exchange: spec_mock_netswap(),
            price: 85 * (crate::dec::UNIT as int),
            liquidity: 200000 * (crate::dec::UNIT as int),
            reserve_base: 2353 * (crate::dec::UNIT as int),
            reserve_quote: 200000 * (crate::dec::UNIT as int),
        },
        PairView {
            base_token: spec_mock_metis(),
            quote_token: spec_mock_usdc(),
            exchange: spec_mock_tethys(),
            price: 84 * (crate::dec::UNIT as int),
            liquidity: 150000 * (crate::dec::UNIT as int),
            reserve_base: 1786 * (crate::dec::UNIT as int),
            reserve_quote: 150000 * (crate::dec::UNIT as int),
        },
    ]
}

impl MockPriceFeed {
    pub fn new() -> (r: MockPriceFeed)
        ensures
            r.feed_wf(),
            r.spec_pairs() == spec_mock_pairs(),
            forall|i: int| 0 <= i < 4 ==> (#[trigger] r.spec_pairs()[i]).wf(),
    {
        let weth = Token::new("WETH", "Wrapped Ether", 18, "0x420000000000000000000000000000000000000a");
        let usdc = Token::new("USDC", "USD Coin", 6, "0xEA32A96608495e54156Ae48931A7c20f0dcc1a21");
        let metis = Token::new("METIS", "Metis Token", 18, "0xDeadDeAddeAddEAddeadDEaDDEAdDeaDDeAD0000");
        let netswap = Exchange::new("netswap", "Metis", "0x1E876cCe41B7b844FDe09E38Fa1cf00f213bFf56");
        let tethys = Exchange::new("tethys", "Metis", "0x81b9FA50D5f5155Ee17817C21702C3AE4780AD09");
        let mut pairs: Vec<TradingPair> = Vec::new();
        pairs.push(
            TradingPair::new(
                weth.duplicate(),
                usdc.duplicate(),
                netswap.duplicate(),
                Dec::from_int(1850),
                Dec::from_int(500000),
                Dec::from_int(270),
                Dec::from_int(500000),
            ),
        );
        pairs.push(
            TradingPair::new(
                weth,
                usdc.duplicate(),
                tethys.duplicate(),
                Dec::from_int(1852),
                Dec::from_int(350000),
                Dec::from_int(189),
                Dec::from_int(350000),
            ),
        );
        pairs.push(
            TradingPair::new(
                metis.duplicate(),
                usdc.duplicate(),
                netswap,
                Dec::from_int(85),
                Dec::from_int(200000),
                Dec::from_int(2353),
                Dec::from_int(200000),
            ),
        );
        pairs.push(
            TradingPair::new(
                metis,
                usdc,
                tethys,
                Dec::from_int(84),
                Dec::from_int(150000),
                Dec::from_int(1786),
                Dec::from_int(150000),
            ),
        );
        let r = MockPriceFeed { pairs };
        proof {
            assert(r.spec_pairs()[0] == spec_mock_pairs()[0]);
            assert(r.spec_pairs()[1] == spec_mock_pairs()[1]);
            assert(r.spec_pairs()[2] == spec_mock_pairs()[2]);
            assert(r.spec_pairs()[3] == spec_mock_pairs()[3]);
            assert(r.spec_pairs() =~= spec_mock_pairs());
        }
        r
    }
}

impl Default for MockPriceFeed {
    fn default() -> (r: Self)
        ensures
            r.feed_wf(),
            r.spec_pairs() == spec_mock_pairs(),
    {
        Self::new()
    }
}

impl PriceFeed for MockPriceFeed {
    closed spec fn spec_pairs(&self) -> Seq<PairView> {
        self.pairs.deep_view()
    }

    open spec fn feed_wf(&self) -> bool {
        true
    }

    fn get_trading_pairs(&self) -> (r: Vec<TradingPair>) {
        duplicate_pairs(&self.pairs)
    }

    /// The price of the first fixture pair with the given symbols.
    fn get_price(&self, base: &str, quote: &str) -> (r: Option<Dec>)
        ensures
            match (r, spec_first_with_symbols(self.spec_pairs(), base@, quote@)) {
                (Some(d), Some(p)) => d@ == p.price,
                (None, None) => true,
                _ => false,
            },
    {
        match self.find_pair(base, quote) {
            Some(i) => Some(self.pairs[i].price),
            None => None,
        }
    }

    /// The liquidity of the first fixture pair with the given
    /// symbols.
    fn get_liquidity(&self, base: &str, quote: &str) -> (r: Option<Dec>)
        ensures
            match (r, spec_first_with_symbols(self.spec_pairs(), base@, quote@)) {
                (Some(d), Some(p)) => d@ == p.liquidity,
                (None, None) => true,
                _ => false,
            },
    {
        match self.find_pair(base, quote) {
            Some(i) => Some(self.pairs[i].liquidity),
            None => None,
        }
    }

    /// A fixture never changes: refreshing is a successful no-op.
    fn refresh(&mut self, fetched: Result<Vec<RawPairRecord>, FeedError>) -> (r: Result<
        (),
        FeedError,
    >)
        ensures
            r is Ok,
            *final(self) == *old(self),
    {
        let _ = fetched;
        Ok(())
    }
}

impl MockPriceFeed {
    /// Index of the first fixture pair with the given symbols.
    fn find_pair(&self, base: &str, quote: &str) -> (r: Option<usize>)
        ensures
            match r {
                Some(i) => i < self.spec_pairs().len() && spec_first_with_symbols(
                    self.spec_pairs(),
                    base@,
                    quote@,
                ) == Some(self.spec_pairs()[i as int]),
                None => spec_first_with_symbols(self.spec_pairs(), base@, quote@) is None,
            },
    {
        let ghost dv = self.spec_pairs();
        let mut i: usize = 0;
        while i < self.pairs.len()
            invariant
                i <= self.pairs@.len(),
                dv == self.pairs.deep_view(),
                forall|j: int|
                    0 <= j < i ==> !((#[trigger] dv[j]).base_token.symbol == base@
                        && dv[j].quote_token.symbol == quote@),
            decreases self.pairs@.len() - i,
        {
            let hit = str_eq(self.pairs[i].base_token.symbol.as_str(), base) && str_eq(
                self.pairs[i].quote_token.symbol.as_str(),
                quote,
            );
            if hit {
                proof {
                    lemma_first_with_symbols_skip(dv, i as int, base@, quote@);
                    assert(dv.skip(i as int)[0] == dv[i as int]);
                }
                return Some(i);
            }
            i = i + 1;
        }
        proof {
            lemma_first_with_symbols_skip(dv, dv.len() as int, base@, quote@);
            assert(dv.skip(dv.len() as int) =~= Seq::<PairView>::empty());
        }
        None
    }
}

} // verus!
