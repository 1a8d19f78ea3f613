//! Core data structures: tokens, exchanges, trading pairs, cached
//! prices, and multi-leg route types reserved for later phases.

use vstd::prelude::*;

use crate::clock;
use crate::dec::{ratio_pct, spec_ratio_pct_raw, Dec};

verus! {

/// A token on the blockchain.
#[derive(Debug, Clone, PartialEq, Eq, Hash)]
pub struct Token {
    pub symbol: String,
    pub name: String,
    pub decimals: u8,
    pub address: String,
}

/// The mathematical model of a token: its strings as character
/// sequences.
pub ghost struct TokenView {
    pub symbol: Seq<char>,
    pub name: Seq<char>,
    pub decimals: u8,
    pub address: Seq<char>,
}

impl View for Token {
    type V = TokenView;

    open spec fn view(&self) -> TokenView {
        TokenView {
            symbol: self.symbol@,
            name: self.name@,
            decimals: self.decimals,
            address: self.address@,
        }
    }
}

impl DeepView for Token {
    type V = TokenView;

    open spec fn deep_view(&self) -> TokenView {
        self.view()
    }
}

impl Token {
    /// A field-for-field copy.
    pub fn duplicate(&self) -> (r: Token)
        ensures
            r == *self,
    {
        Token {
            symbol: self.symbol.clone(),
            name: self.name.clone(),
            decimals: self.decimals,
            address: self.address.clone(),
        }
    }

    pub fn new(symbol: &str, name: &str, decimals: u8, address: &str) -> (r: Token)
        ensures
            r.symbol@ == symbol@,
            r.name@ == name@,
            r.decimals == decimals,
            r.address@ == address@,
    {
        Token {
            symbol: symbol.to_owned(),
            name: name.to_owned(),
            decimals,
            address: address.to_owned(),
        }
    }
}

/// A decentralized exchange.
#[derive(Debug, Clone, PartialEq, Eq, Hash)]
pub struct Exchange {
    pub name: String,
    pub chain: String,
    pub router_address: String,
}

/// The mathematical model of an exchange.
pub ghost struct ExchangeView {
    pub name: Seq<char>,
    pub chain: Seq<char>,
    pub router_address: Seq<char>,
}

impl View for Exchange {
    type V = ExchangeView;

    open spec fn view(&self) -> ExchangeView {
        ExchangeView { name: self.name@, chain: self.chain@, router_address: self.router_address@ }
    }
}

impl DeepView for Exchange {
    type V = ExchangeView;

    open spec fn deep_view(&self) -> ExchangeView {
        self.view()
    }
}

impl Exchange {
    /// A field-for-field copy.
    pub fn duplicate(&self) -> (r: Exchange)
        ensures
            r == *self,
    {
        Exchange {
            name: self.name.clone(),
            chain: self.chain.clone(),
            router_address: self.router_address.clone(),
        }
    }

    pub fn new(name: &str, chain: &str, router_address: &str) -> (r: Exchange)
        ensures
            r.name@ == name@,
            r.chain@ == chain@,
            r.router_address@ == router_address@,
    {
        Exchange { name: name.to_owned(), chain: chain.to_owned(), router_address: router_address.to_owned() }
    }
}

/// A trading pair on one exchange.
#[derive(Debug, Clone)]
pub struct TradingPair {
    pub base_token: Token,
    pub quote_token: Token,
    pub exchange: Exchange,
    pub price: Dec,
    pub liquidity: Dec,
    pub reserve_base: Dec,
    pub reserve_quote: Dec,
}

/// The mathematical model of a trading pair: strings as character
/// sequences, amounts as raw fixed-point integers.
pub ghost struct PairView {
    pub base_token: TokenView,
    pub quote_token: TokenView,
    pub exchange: ExchangeView,
    pub price: int,
    pub liquidity: int,
    pub reserve_base: int,
    pub reserve_quote: int,
}

impl PairView {
    /// The pair identifier: base symbol, `/`, quote symbol.
    pub open spec fn pair_id(self) -> Seq<char> {
        self.base_token.symbol + seq!['/'] + self.quote_token.symbol
    }

    /// The full identifier: exchange name, `:`, then the pair identifier.
    pub open spec fn full_id(self) -> Seq<char> {
        self.exchange.name + seq![':'] + self.base_token.symbol + seq!['/']
            + self.quote_token.symbol
    }

    /// All the pair's amounts lie in the representable range.
    pub open spec fn wf(self) -> bool {
        &&& -(crate::dec::MAX_RAW as int) <= self.price <= crate::dec::MAX_RAW as int
        &&& -(crate::dec::MAX_RAW as int) <= self.liquidity <= crate::dec::MAX_RAW as int
        &&& -(crate::dec::MAX_RAW as int) <= self.reserve_base <= crate::dec::MAX_RAW as int
        &&& -(crate::dec::MAX_RAW as int) <= self.reserve_quote <= crate::dec::MAX_RAW as int
    }
}

impl View for TradingPair {
    type V = PairView;

    open spec fn view(&self) -> PairView {
        PairView {
            base_token: self.base_token@,
            quote_token: self.quote_token@,
            exchange: self.exchange@,
            price: self.price@,
            liquidity: self.liquidity@,
            reserve_base: self.reserve_base@,
            reserve_quote: self.reserve_quote@,
        }
    }
}

impl DeepView for TradingPair {
    type V = PairView;

    open spec fn deep_view(&self) -> PairView {
        self.view()
    }
}

impl TradingPair {
    /// A field-for-field copy.
    pub fn duplicate(&self) -> (r: TradingPair)
        ensures
            r == *self,
    {
        TradingPair {
            base_token: self.base_token.duplicate(),
            quote_token: self.quote_token.duplicate(),
            exchange: self.exchange.duplicate(),
            price: self.price,
            liquidity: self.liquidity,
            reserve_base: self.reserve_base,
            reserve_quote: self.reserve_quote,
        }
    }

    pub fn new(
        base_token: Token,
        quote_token: Token,
        exchange: Exchange,
        price: Dec,
        liquidity: Dec,
        reserve_base: Dec,
        reserve_quote: Dec,
    ) -> (r: TradingPair)
        ensures
            r == (TradingPair {
                base_token,
                quote_token,
                exchange,
                price,
                liquidity,
                reserve_base,
                reserve_quote,
            }),
    {
        TradingPair { base_token, quote_token, exchange, price, liquidity, reserve_base, reserve_quote }
    }

    /// The pair identifier, e.g. `WETH/USDC`.
    pub fn pair_id(&self) -> (r: String)
        ensures
            r@ == self@.pair_id(),
    {
        let mut r = self.base_token.symbol.clone();
        r.append("/");
        r.append(self.quote_token.symbol.as_str());
        proof {
            reveal_strlit("/");
            assert("/"@ =~= seq!['/']);
        }
        r
    }

    /// The full identifier including the exchange, e.g. `netswap:WETH/USDC`.
    pub fn full_id(&self) -> (r: String)
        ensures
            r@ == self@.full_id(),
    {
        let mut r = self.exchange.name.clone();
        r.append(":");
        r.append(self.base_token.symbol.as_str());
        r.append("/");
        r.append(self.quote_token.symbol.as_str());
        proof {
            reveal_strlit(":");
            reveal_strlit("/");
            assert(":"@ =~= seq![':']);
            assert("/"@ =~= seq!['/']);
        }
        r
    }
}

/// Whether an entry captured at `timestamp_seconds` is stale at
/// `now_seconds` under `max_age_seconds`: strictly older than the
/// allowed age.
pub open spec fn spec_stale(timestamp_seconds: int, max_age_seconds: int, now_seconds: int) -> bool {
    now_seconds - timestamp_seconds > max_age_seconds
}

/// A cached price entry with its capture time and source label.
#[derive(Debug, Clone)]
pub struct CachedPrice {
    pub price: Dec,
    pub timestamp_seconds: i64,
    pub source: String,
}

impl CachedPrice {
    /// Staleness judged against an explicit clock reading.
    pub fn is_stale_at(&self, max_age_seconds: i64, now_seconds: i64) -> (r: bool)
        ensures
            r == spec_stale(self.timestamp_seconds as int, max_age_seconds as int, now_seconds as int),
    {
        (now_seconds as i128) - (self.timestamp_seconds as i128) > (max_age_seconds as i128)
    }

    /// Staleness against the wall clock: strictly older than
    /// `max_age_seconds`.  The clock reading itself cannot be pinned
    /// down; `is_stale_at` carries the exact contract.
    pub fn is_stale(&self, max_age_seconds: i64) -> bool {
        let now = clock::now_unix_seconds();
        self.is_stale_at(max_age_seconds, now)
    }
}

/// One leg of a multi-hop arbitrage route.
#[derive(Debug, Clone)]
pub struct ArbitrageLeg {
    pub from_token: Token,
    pub to_token: Token,
    pub exchange: Exchange,
    pub price: Dec,
    pub liquidity: Dec,
}

impl ArbitrageLeg {
    pub fn new(from_token: Token, to_token: Token, exchange: Exchange, price: Dec, liquidity: Dec) -> (r:
        ArbitrageLeg)
        ensures
            r == (ArbitrageLeg { from_token, to_token, exchange, price, liquidity }),
    {
        ArbitrageLeg { from_token, to_token, exchange, price, liquidity }
    }
}

/// The separator between hops in a formatted route.
pub open spec fn spec_path_sep() -> Seq<char> {
    seq![' ', '-', '>', ' ']
}

/// The concatenation of ` -> ` and the destination symbol for each of
/// the first `i` legs.
pub open spec fn spec_path_parts(legs: Seq<ArbitrageLeg>, i: int) -> Seq<char>
    decreases i,
{
    if i <= 0 {
        Seq::<char>::empty()
    } else {
        spec_path_parts(legs, i - 1) + spec_path_sep() + legs[i - 1].to_token.symbol@
    }
}

/// The formatted route: the first leg's source symbol, then ` -> ` and
/// the destination symbol of every leg; empty for an empty route.
pub open spec fn spec_format_path(legs: Seq<ArbitrageLeg>) -> Seq<char> {
    if legs.len() == 0 {
        Seq::<char>::empty()
    } else {
        legs[0].from_token.symbol@ + spec_path_parts(legs, legs.len() as int)
    }
}

/// A complete arbitrage route: a sequence of legs.
#[derive(Debug, Clone)]
pub struct ArbitrageRoute {
    pub legs: Vec<ArbitrageLeg>,
    pub total_hops: usize,
}

impl ArbitrageRoute {
    pub fn new(legs: Vec<ArbitrageLeg>) -> (r: ArbitrageRoute)
        ensures
            r.legs == legs,
            r.total_hops == legs@.len(),
    {
        let total_hops = legs.len();
        ArbitrageRoute { legs, total_hops }
    }

    /// Format the route, e.g. `USDC -> WETH -> METIS -> USDC`.
    pub fn format_path(&self) -> (r: String)
        ensures
            r@ == spec_format_path(self.legs@),
    {
        if self.legs.len() == 0 {
            return String::new();
        }
        let mut r = self.legs[0].from_token.symbol.clone();
        let mut i: usize = 0;
        while i < self.legs.len()
            invariant
                i <= self.legs@.len(),
                self.legs@.len() > 0,
                r@ == self.legs@[0].from_token.symbol@ + spec_path_parts(self.legs@, i as int),
            decreases self.legs@.len() - i,
        {
            r.append(" -> ");
            r.append(self.legs[i].to_token.symbol.as_str());
            proof {
                reveal_strlit(" -> ");
                assert(" -> "@ =~= spec_path_sep());
            }
            i = i + 1;
        }
        r
    }
}

/// A detected arbitrage opportunity (not populated by the detection
/// phase; reserved for later execution phases).
#[derive(Debug, Clone)]
pub struct ArbitrageOpportunity {
    pub route: ArbitrageRoute,
    pub input_amount: Dec,
    pub output_amount: Dec,
    pub gross_profit: Dec,
    pub net_profit: Dec,
    pub gas_cost: Dec,
    pub profit_percentage: Dec,
    pub timestamp_seconds: i64,
}

impl ArbitrageOpportunity {
    /// Build an opportunity; the profit percentage is
    /// `net_profit / input_amount * 100` when the input amount is
    /// positive and zero otherwise, and the timestamp is the wall
    /// clock at construction.
    pub fn new(
        route: ArbitrageRoute,
        input_amount: Dec,
        output_amount: Dec,
        gross_profit: Dec,
        net_profit: Dec,
        gas_cost: Dec,
    ) -> (r: ArbitrageOpportunity)
        requires
            input_amount.wf(),
            net_profit.wf(),
        ensures
            r.route == route,
            r.input_amount == input_amount,
            r.output_amount == output_amount,
            r.gross_profit == gross_profit,
            r.net_profit == net_profit,
            r.gas_cost == gas_cost,
            input_amount.spec_raw() > 0 ==> r.profit_percentage.spec_raw() == spec_ratio_pct_raw(
                net_profit.spec_raw(),
                input_amount.spec_raw(),
            ),
            input_amount.spec_raw() <= 0 ==> r.profit_percentage.spec_raw() == 0,
            r.timestamp_seconds >= 0,
    {
        let profit_percentage = if input_amount.is_positive() {
            ratio_pct(&net_profit, &input_amount)
        } else {
            Dec::zero()
        };
        let timestamp_seconds = clock::now_unix_seconds();
        ArbitrageOpportunity {
            route,
            input_amount,
            output_amount,
            gross_profit,
            net_profit,
            gas_cost,
            profit_percentage,
            timestamp_seconds,
        }
    }
}

} // verus!
