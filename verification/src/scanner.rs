//! Divergence scanner: group a snapshot by pair identity and flag
//! every identity whose cheapest and dearest listings diverge by more
//! than the fixed half-percent threshold.

use vstd::prelude::*;

use crate::dec::{
    spec_spread_exceeds, spec_spread_pct_raw, spread_exceeds_threshold, spread_pct, Dec,
};
use crate::models::{PairView, TradingPair};

verus! {

/// An opportunity signal: one pair identity whose listings diverge,
/// with the spread and the cheapest and dearest listings.
#[derive(Debug)]
pub struct SpreadSignal {
    pub base_symbol: String,
    pub quote_symbol: String,
    pub spread_pct: Dec,
    pub low_exchange: String,
    pub low_price: Dec,
    pub high_exchange: String,
    pub high_price: Dec,
}

/// The mathematical model of a signal.
pub ghost struct SpreadSignalView {
    pub base_symbol: Seq<char>,
    pub quote_symbol: Seq<char>,
    pub spread_pct: int,
    pub low_exchange: Seq<char>,
    pub low_price: int,
    pub high_exchange: Seq<char>,
    pub high_price: int,
}

impl View for SpreadSignal {
    type V = SpreadSignalView;

    open spec fn view(&self) -> SpreadSignalView {
        SpreadSignalView {
            base_symbol: self.base_symbol@,
            quote_symbol: self.quote_symbol@,
            spread_pct: self.spread_pct@,
            low_exchange: self.low_exchange@,
            low_price: self.low_price@,
            high_exchange: self.high_exchange@,
            high_price: self.high_price@,
        }
    }
}

impl DeepView for SpreadSignal {
    type V = SpreadSignalView;

    open spec fn deep_view(&self) -> SpreadSignalView {
        self.view()
    }
}

/// `p` trades the pair identity `b/q` (by symbols).
pub open spec fn spec_key_match(p: PairView, b: Seq<char>, q: Seq<char>) -> bool {
    p.base_token.symbol == b && p.quote_token.symbol == q
}

/// The pairs of `pairs` trading `b/q`, in order.
pub open spec fn spec_group(pairs: Seq<PairView>, b: Seq<char>, q: Seq<char>) -> Seq<PairView>
    decreases pairs.len(),
{
    if pairs.len() == 0 {
        Seq::<PairView>::empty()
    } else {
        let rest = spec_group(pairs.drop_last(), b, q);
        if spec_key_match(pairs.last(), b, q) {
            rest.push(pairs.last())
        } else {
            rest
        }
    }
}

/// The least price in a group.
pub open spec fn spec_min_price(g: Seq<PairView>) -> int
    recommends
        g.len() > 0,
    decreases g.len(),
{
    if g.len() <= 1 {
        g[0].price
    } else {
        let m = spec_min_price(g.drop_last());
        if g.last().price < m {
            g.last().price
        } else {
            m
        }
    }
}

/// The greatest price in a group.
pub open spec fn spec_max_price(g: Seq<PairView>) -> int
    recommends
        g.len() > 0,
    decreases g.len(),
{
    if g.len() <= 1 {
        g[0].price
    } else {
        let m = spec_max_price(g.drop_last());
        if g.last().price > m {
            g.last().price
        } else {
            m
        }
    }
}

/// A group produces a signal: at least two listings, and the spread
/// between its least (positive) and greatest price strictly exceeds
/// the half-percent threshold.
pub open spec fn spec_qualifies(g: Seq<PairView>) -> bool {
    g.len() >= 2 && spec_spread_exceeds(spec_min_price(g), spec_max_price(g))
}

/// `s` is a faithful signal for its pair identity within `pairs`: the
/// identity's group qualifies, the signal carries the group's extreme
/// prices with exchanges that attain them, and the spread percentage
/// is computed from exactly those prices.
pub open spec fn spec_signal_ok(s: SpreadSignalView, pairs: Seq<PairView>) -> bool {
    let g = spec_group(pairs, s.base_symbol, s.quote_symbol);
    &&& spec_qualifies(g)
    &&& s.low_price == spec_min_price(g)
    &&& s.high_price == spec_max_price(g)
    &&& exists|i: int|
        0 <= i < g.len() && (#[trigger] g[i]).price == s.low_price && g[i].exchange.name
            == s.low_exchange
    &&& exists|i: int|
        0 <= i < g.len() && (#[trigger] g[i]).price == s.high_price && g[i].exchange.name
            == s.high_exchange
    &&& s.spread_pct == spec_spread_pct_raw(s.low_price, s.high_price)
}

/// No pair before position `m` trades the same identity as the pair
/// at `m`.
pub open spec fn spec_first_occ(pairs: Seq<PairView>, m: int) -> bool
    recommends
        0 <= m < pairs.len(),
{
    forall|j: int|
        0 <= j < m ==> !spec_key_match(
            #[trigger] pairs[j],
            pairs[m].base_token.symbol,
            pairs[m].quote_token.symbol,
        )
}

proof fn lemma_group_members(pairs: Seq<PairView>, b: Seq<char>, q: Seq<char>)
    ensures
        forall|gi: int|
            0 <= gi < spec_group(pairs, b, q).len() ==> spec_key_match(
                #[trigger] spec_group(pairs, b, q)[gi],
                b,
                q,
            ),
    decreases pairs.len(),
{
    if pairs.len() > 0 {
        lemma_group_members(pairs.drop_last(), b, q);
        let rest = spec_group(pairs.drop_last(), b, q);
        let g = spec_group(pairs, b, q);
        assert forall|gi: int| 0 <= gi < g.len() implies spec_key_match(g[gi], b, q) by {
            if spec_key_match(pairs.last(), b, q) {
                if gi < rest.len() {
                    assert(g[gi] == rest[gi]);
                } else {
                    assert(g[gi] == pairs.last());
                }
            } else {
                assert(g[gi] == rest[gi]);
            }
        }
    }
}

proof fn lemma_group_member_has_index(pairs: Seq<PairView>, b: Seq<char>, q: Seq<char>)
    requires
        spec_group(pairs, b, q).len() > 0,
    ensures
        exists|pi: int| 0 <= pi < pairs.len() && spec_key_match(#[trigger] pairs[pi], b, q),
    decreases pairs.len(),
{
    if pairs.len() > 0 {
        if spec_key_match(pairs.last(), b, q) {
            assert(spec_key_match(pairs[pairs.len() - 1], b, q));
        } else {
            lemma_group_member_has_index(pairs.drop_last(), b, q);
            let pi = choose|pi: int|
                0 <= pi < pairs.drop_last().len() && spec_key_match(
                    #[trigger] pairs.drop_last()[pi],
                    b,
                    q,
                );
            assert(spec_key_match(pairs[pi], b, q));
        }
    }
}

proof fn lemma_first_occurrence(pairs: Seq<PairView>, idx: int)
    requires
        0 <= idx < pairs.len(),
    ensures
        exists|m: int|
            0 <= m < pairs.len() && spec_first_occ(pairs, m) && (#[trigger] pairs[m]).base_token.symbol
                == pairs[idx].base_token.symbol && pairs[m].quote_token.symbol
                == pairs[idx].quote_token.symbol,
    decreases idx,
{
    if spec_first_occ(pairs, idx) {
        assert(0 <= idx < pairs.len() && spec_first_occ(pairs, idx)
            && pairs[idx].base_token.symbol == pairs[idx].base_token.symbol
            && pairs[idx].quote_token.symbol == pairs[idx].quote_token.symbol);
    } else {
        let j = choose|j: int|
            0 <= j < idx && spec_key_match(
                #[trigger] pairs[j],
                pairs[idx].base_token.symbol,
                pairs[idx].quote_token.symbol,
            );
        lemma_first_occurrence(pairs, j);
    }
}

proof fn lemma_group_two_indexes(pairs: Seq<PairView>, b: Seq<char>, q: Seq<char>)
    requires
        spec_group(pairs, b, q).len() >= 2,
    ensures
        exists|i: int, j: int|
            0 <= i < j < pairs.len() && spec_key_match(#[trigger] pairs[i], b, q) && spec_key_match(
                #[trigger] pairs[j],
                b,
                q,
            ),
    decreases pairs.len(),
{
    if pairs.len() > 0 {
        if spec_key_match(pairs.last(), b, q) {
            lemma_group_member_has_index(pairs.drop_last(), b, q);
            let pi = choose|pi: int|
                0 <= pi < pairs.drop_last().len() && spec_key_match(
                    #[trigger] pairs.drop_last()[pi],
                    b,
                    q,
                );
            assert(spec_key_match(pairs[pi], b, q));
            assert(spec_key_match(pairs[pairs.len() - 1], b, q));
        } else {
            lemma_group_two_indexes(pairs.drop_last(), b, q);
            let (i, j) = choose|i: int, j: int|
                0 <= i < j < pairs.drop_last().len() && spec_key_match(
                    #[trigger] pairs.drop_last()[i],
                    b,
                    q,
                ) && spec_key_match(#[trigger] pairs.drop_last()[j], b, q);
            assert(spec_key_match(pairs[i], b, q) && spec_key_match(pairs[j], b, q));
        }
    }
}

/// A pair identity listed by a single exchange never produces a
/// signal, whatever its price: in a snapshot with pairwise distinct
/// full identifiers, a group whose members all name the same exchange
/// has at most one member, so it never qualifies — and the scanner's
/// contract admits signals only for qualifying groups.
pub proof fn lemma_single_exchange_no_signal(
    pairs: Seq<PairView>,
    b: Seq<char>,
    q: Seq<char>,
    e: Seq<char>,
)
    requires
        forall|i: int, j: int|
            #![trigger pairs[i], pairs[j]]
            0 <= i < j < pairs.len() ==> pairs[i].full_id() != pairs[j].full_id(),
        forall|i: int|
            0 <= i < pairs.len() && spec_key_match(#[trigger] pairs[i], b, q)
                ==> pairs[i].exchange.name == e,
    ensures
        !spec_qualifies(spec_group(pairs, b, q)),
{
    if spec_group(pairs, b, q).len() >= 2 {
        lemma_group_two_indexes(pairs, b, q);
        let (i, j) = choose|i: int, j: int|
            0 <= i < j < pairs.len() && spec_key_match(#[trigger] pairs[i], b, q) && spec_key_match(
                #[trigger] pairs[j],
                b,
                q,
            );
        assert(pairs[i].exchange.name == e && pairs[j].exchange.name == e);
        assert(pairs[i].full_id() == pairs[j].full_id());
        assert(false);
    }
}

/// Every signal is faithful to the snapshot.
pub open spec fn inv_signals_ok(signals: Seq<SpreadSignalView>, pv: Seq<PairView>) -> bool {
    forall|k: int| 0 <= k < signals.len() ==> spec_signal_ok(#[trigger] signals[k], pv)
}

/// The identity of `sv` first occurs in `pv` before position `i`.
pub open spec fn has_first_occ(sv: SpreadSignalView, pv: Seq<PairView>, i: int) -> bool {
    exists|m: int|
        0 <= m < i && spec_first_occ(pv, m) && (#[trigger] pv[m]).base_token.symbol
            == sv.base_symbol && pv[m].quote_token.symbol == sv.quote_symbol
}

/// Some signal carries the pair identity `b/q`.
pub open spec fn has_signal_for(signals: Seq<SpreadSignalView>, b: Seq<char>, q: Seq<char>) -> bool {
    exists|k: int|
        0 <= k < signals.len() && (#[trigger] signals[k]).base_symbol == b
            && signals[k].quote_symbol == q
}

/// Every signal's identity has a first occurrence before position `i`.
pub open spec fn inv_first_occs(signals: Seq<SpreadSignalView>, pv: Seq<PairView>, i: int) -> bool {
    forall|k: int|
        0 <= k < signals.len() ==> has_first_occ(#[trigger] signals[k], pv, i)
}

/// No two signals share a pair identity.
pub open spec fn inv_distinct(signals: Seq<SpreadSignalView>) -> bool {
    forall|k1: int, k2: int|
        #![trigger signals[k1], signals[k2]]
        0 <= k1 < k2 < signals.len() ==> !(signals[k1].base_symbol == signals[k2].base_symbol
            && signals[k1].quote_symbol == signals[k2].quote_symbol)
}

/// Every qualifying identity first occurring before position `i`
/// already has its signal.
pub open spec fn inv_complete(signals: Seq<SpreadSignalView>, pv: Seq<PairView>, i: int) -> bool {
    forall|m: int|
        0 <= m < i && spec_first_occ(pv, m) && spec_qualifies(
            spec_group(pv, (#[trigger] pv[m]).base_token.symbol, pv[m].quote_token.symbol),
        ) ==> has_signal_for(signals, pv[m].base_token.symbol, pv[m].quote_token.symbol)
}

proof fn lemma_push_signal(signals: Seq<SpreadSignalView>, sv: SpreadSignalView, pv: Seq<PairView>, i: int)
    requires
        0 <= i < pv.len(),
        spec_first_occ(pv, i),
        sv.base_symbol == pv[i].base_token.symbol,
        sv.quote_symbol == pv[i].quote_token.symbol,
        spec_signal_ok(sv, pv),
        inv_signals_ok(signals, pv),
        inv_first_occs(signals, pv, i),
        inv_distinct(signals),
        inv_complete(signals, pv, i),
    ensures
        inv_signals_ok(signals.push(sv), pv),
        inv_first_occs(signals.push(sv), pv, i + 1),
        inv_distinct(signals.push(sv)),
        inv_complete(signals.push(sv), pv, i + 1),
{
    let new_signals = signals.push(sv);
    assert forall|k: int| 0 <= k < new_signals.len() implies spec_signal_ok(
        #[trigger] new_signals[k],
        pv,
    ) by {
        if k < signals.len() {
            assert(new_signals[k] == signals[k]);
        } else {
            assert(new_signals[k] == sv);
        }
    }
    assert forall|k: int|
        #![trigger new_signals[k]]
        0 <= k < new_signals.len() implies exists|m: int|
        0 <= m < i + 1 && spec_first_occ(pv, m) && (#[trigger] pv[m]).base_token.symbol
            == new_signals[k].base_symbol && pv[m].quote_token.symbol
            == new_signals[k].quote_symbol by {
        if k < signals.len() {
            assert(new_signals[k] == signals[k]);
            let m = choose|m: int|
                0 <= m < i && spec_first_occ(pv, m) && (#[trigger] pv[m]).base_token.symbol
                    == signals[k].base_symbol && pv[m].quote_token.symbol
                    == signals[k].quote_symbol;
            assert(0 <= m < i + 1 && spec_first_occ(pv, m) && pv[m].base_token.symbol
                == new_signals[k].base_symbol && pv[m].quote_token.symbol
                == new_signals[k].quote_symbol);
        } else {
            assert(new_signals[k] == sv);
            assert(0 <= i < i + 1 && spec_first_occ(pv, i) && pv[i].base_token.symbol
                == sv.base_symbol && pv[i].quote_token.symbol == sv.quote_symbol);
        }
    }
    assert forall|k1: int, k2: int|
        #![trigger new_signals[k1], new_signals[k2]]
        0 <= k1 < k2 < new_signals.len() implies !(new_signals[k1].base_symbol
        == new_signals[k2].base_symbol && new_signals[k1].quote_symbol
        == new_signals[k2].quote_symbol) by {
        if k2 < signals.len() {
            assert(new_signals[k1] == signals[k1]);
            assert(new_signals[k2] == signals[k2]);
        } else {
            assert(new_signals[k1] == signals[k1]);
            assert(new_signals[k2] == sv);
            if new_signals[k1].base_symbol == sv.base_symbol && new_signals[k1].quote_symbol
                == sv.quote_symbol {
                assert(has_first_occ(signals[k1], pv, i));
                let m = choose|m: int|
                    0 <= m < i && spec_first_occ(pv, m) && (#[trigger] pv[m]).base_token.symbol
                        == signals[k1].base_symbol && pv[m].quote_token.symbol
                        == signals[k1].quote_symbol;
                assert(spec_key_match(
                    pv[m],
                    pv[i].base_token.symbol,
                    pv[i].quote_token.symbol,
                ));
                assert(false);
            }
        }
    }
    assert forall|m: int|
        0 <= m < i + 1 && spec_first_occ(pv, m) && spec_qualifies(
            spec_group(pv, (#[trigger] pv[m]).base_token.symbol, pv[m].quote_token.symbol),
        ) implies has_signal_for(new_signals, pv[m].base_token.symbol, pv[m].quote_token.symbol) by {
        if m < i {
            assert(has_signal_for(signals, pv[m].base_token.symbol, pv[m].quote_token.symbol));
            let k = choose|k: int|
                0 <= k < signals.len() && (#[trigger] signals[k]).base_symbol
                    == pv[m].base_token.symbol && signals[k].quote_symbol
                    == pv[m].quote_token.symbol;
            assert(new_signals[k] == signals[k]);
            assert(0 <= k < new_signals.len() && new_signals[k].base_symbol
                == pv[m].base_token.symbol && new_signals[k].quote_symbol
                == pv[m].quote_token.symbol);
        } else {
            let k = signals.len() as int;
            assert(new_signals[k] == sv);
            assert(0 <= k < new_signals.len() && new_signals[k].base_symbol
                == pv[m].base_token.symbol && new_signals[k].quote_symbol
                == pv[m].quote_token.symbol);
        }
    }
}

proof fn lemma_step_without_signal(signals: Seq<SpreadSignalView>, pv: Seq<PairView>, i: int)
    requires
        0 <= i < pv.len(),
        spec_first_occ(pv, i) ==> !spec_qualifies(
            spec_group(pv, pv[i].base_token.symbol, pv[i].quote_token.symbol),
        ),
        inv_first_occs(signals, pv, i),
        inv_complete(signals, pv, i),
    ensures
        inv_first_occs(signals, pv, i + 1),
        inv_complete(signals, pv, i + 1),
{
    assert forall|k: int| 0 <= k < signals.len() implies has_first_occ(
        #[trigger] signals[k],
        pv,
        i + 1,
    ) by {
        assert(has_first_occ(signals[k], pv, i));
        let m = choose|m: int|
            0 <= m < i && spec_first_occ(pv, m) && (#[trigger] pv[m]).base_token.symbol
                == signals[k].base_symbol && pv[m].quote_token.symbol == signals[k].quote_symbol;
        assert(0 <= m < i + 1 && spec_first_occ(pv, m) && pv[m].base_token.symbol
            == signals[k].base_symbol && pv[m].quote_token.symbol == signals[k].quote_symbol);
    }
    assert forall|m: int|
        0 <= m < i + 1 && spec_first_occ(pv, m) && spec_qualifies(
            spec_group(pv, (#[trigger] pv[m]).base_token.symbol, pv[m].quote_token.symbol),
        ) implies has_signal_for(signals, pv[m].base_token.symbol, pv[m].quote_token.symbol) by {
        if m < i {
        } else {
            assert(false);
        }
    }
}

/// Scan the whole snapshot for the identity of the pair at `i`:
/// count its group and track the least and greatest price with an
/// exchange attaining each, and build the signal if the group
/// qualifies.
fn scan_group(pairs: &Vec<TradingPair>, i: usize) -> (r: Option<SpreadSignal>)
    requires
        i < pairs.deep_view().len(),
        forall|m: int|
            0 <= m < pairs.deep_view().len() ==> (#[trigger] pairs.deep_view()[m]).wf(),
    ensures
        match r {
            Some(s) => s@.base_symbol == pairs.deep_view()[i as int].base_token.symbol
                && s@.quote_symbol == pairs.deep_view()[i as int].quote_token.symbol
                && spec_signal_ok(s@, pairs.deep_view()),
            None => !spec_qualifies(
                spec_group(
                    pairs.deep_view(),
                    pairs.deep_view()[i as int].base_token.symbol,
                    pairs.deep_view()[i as int].quote_token.symbol,
                ),
            ),
        },
{
    let ghost pv = pairs.deep_view();
    let kb = pairs[i].base_token.symbol.clone();
    let kq = pairs[i].quote_token.symbol.clone();
    let mut count: usize = 0;
    let mut min_price = Dec::zero();
    let mut max_price = Dec::zero();
    let mut min_exchange = String::new();
    let mut max_exchange = String::new();
    let mut j: usize = 0;
    proof {
        assert(spec_group(pv.take(0), kb@, kq@) =~= Seq::<PairView>::empty());
    }
    while j < pairs.len()
        invariant
            pv == pairs.deep_view(),
            j <= pv.len(),
            forall|m: int| 0 <= m < pv.len() ==> (#[trigger] pv[m]).wf(),
            kb@ == pv[i as int].base_token.symbol,
            kq@ == pv[i as int].quote_token.symbol,
            i < pv.len(),
            count <= j,
            count == spec_group(pv.take(j as int), kb@, kq@).len(),
            count > 0 ==> {
                let g = spec_group(pv.take(j as int), kb@, kq@);
                &&& min_price@ == spec_min_price(g)
                &&& max_price@ == spec_max_price(g)
                &&& min_price.wf()
                &&& max_price.wf()
                &&& exists|gi: int|
                    0 <= gi < g.len() && (#[trigger] g[gi]).price == min_price@
                        && g[gi].exchange.name == min_exchange@
                &&& exists|gi: int|
                    0 <= gi < g.len() && (#[trigger] g[gi]).price == max_price@
                        && g[gi].exchange.name == max_exchange@
            },
        decreases pv.len() - j,
    {
        let ghost g_before = spec_group(pv.take(j as int), kb@, kq@);
        let hit = pairs[j].base_token.symbol == kb && pairs[j].quote_token.symbol == kq;
        proof {
            assert(pv.take(j as int + 1).drop_last() =~= pv.take(j as int));
            assert(pv.take(j as int + 1).last() == pv[j as int]);
        }
        if hit {
            let ghost g_after = spec_group(pv.take(j as int + 1), kb@, kq@);
            proof {
                assert(g_after == g_before.push(pv[j as int]));
                assert(g_after.drop_last() =~= g_before);
                assert(g_after.last() == pv[j as int]);
            }
            if count == 0 {
                min_price = pairs[j].price;
                max_price = pairs[j].price;
                min_exchange = pairs[j].exchange.name.clone();
                max_exchange = pairs[j].exchange.name.clone();
                proof {
                    assert(g_after.len() == 1);
                    assert(g_after[0] == pv[j as int]);
                }
            } else {
                proof {
                    assert(g_after.len() >= 2);
                }
                if pairs[j].price.lt(&min_price) {
                    min_price = pairs[j].price;
                    min_exchange = pairs[j].exchange.name.clone();
                    proof {
                        assert(g_after[g_after.len() - 1] == pv[j as int]);
                    }
                } else {
                    proof {
                        let gi = choose|gi: int|
                            0 <= gi < g_before.len() && (#[trigger] g_before[gi]).price
                                == min_price@ && g_before[gi].exchange.name == min_exchange@;
                        assert(g_after[gi] == g_before[gi]);
                    }
                }
                if pairs[j].price.gt(&max_price) {
                    max_price = pairs[j].price;
                    max_exchange = pairs[j].exchange.name.clone();
                    proof {
                        assert(g_after[g_after.len() - 1] == pv[j as int]);
                    }
                } else {
                    proof {
                        let gi = choose|gi: int|
                            0 <= gi < g_before.len() && (#[trigger] g_before[gi]).price
                                == max_price@ && g_before[gi].exchange.name == max_exchange@;
                        assert(g_after[gi] == g_before[gi]);
                    }
                }
            }
            count = count + 1;
        } else {
            proof {
                assert(spec_group(pv.take(j as int + 1), kb@, kq@) == g_before);
            }
        }
        j = j + 1;
    }
    proof {
        assert(pv.take(pv.len() as int) =~= pv);
    }
    let ghost g_full = spec_group(pv, kb@, kq@);
    if count >= 2 && spread_exceeds_threshold(&min_price, &max_price) {
        let sp = spread_pct(&min_price, &max_price);
        let signal = SpreadSignal {
            base_symbol: kb,
            quote_symbol: kq,
            spread_pct: sp,
            low_exchange: min_exchange,
            low_price: min_price,
            high_exchange: max_exchange,
            high_price: max_price,
        };
        proof {
            assert(spec_qualifies(g_full));
            assert(signal@.low_price == spec_min_price(g_full));
            assert(signal@.high_price == spec_max_price(g_full));
            assert(signal@.spread_pct == spec_spread_pct_raw(signal@.low_price, signal@.high_price));
            assert(spec_signal_ok(signal@, pv));
        }
        Some(signal)
    } else {
        proof {
            assert(!spec_qualifies(g_full));
        }
        None
    }
}

/// Scan a snapshot: group by pair identity (base and quote symbols),
/// discard single-listing groups, compare each group's least and
/// greatest price, and emit one signal per identity whose spread
/// strictly exceeds half a percent.  The result carries exactly one
/// signal for every qualifying identity and none for any other.
pub fn find_price_differences(pairs: &Vec<TradingPair>) -> (r: Vec<SpreadSignal>)
    requires
        forall|i: int|
            0 <= i < pairs.deep_view().len() ==> (#[trigger] pairs.deep_view()[i]).wf(),
    ensures
        inv_signals_ok(r.deep_view(), pairs.deep_view()),
        inv_distinct(r.deep_view()),
        forall|b: Seq<char>, q: Seq<char>|
            spec_qualifies(#[trigger] spec_group(pairs.deep_view(), b, q)) ==> has_signal_for(
                r.deep_view(),
                b,
                q,
            ),
{
    let ghost pv = pairs.deep_view();
    let mut result: Vec<SpreadSignal> = Vec::new();
    let mut i: usize = 0;
    while i < pairs.len()
        invariant
            pv == pairs.deep_view(),
            i <= pv.len(),
            forall|m: int| 0 <= m < pv.len() ==> (#[trigger] pv[m]).wf(),
            inv_signals_ok(result.deep_view(), pv),
            inv_first_occs(result.deep_view(), pv, i as int),
            inv_distinct(result.deep_view()),
            inv_complete(result.deep_view(), pv, i as int),
        decreases pv.len() - i,
    {
        let first = is_first_occurrence(pairs, i);
        if first {
            match scan_group(pairs, i) {
                Some(signal) => {
                    let ghost old_signals = result.deep_view();
                    let ghost sv = signal@;
                    result.push(signal);
                    proof {
                        assert forall|k: int| 0 <= k < old_signals.len()
                            implies result.deep_view()[k] == old_signals[k] by {
                            assert(result@[k] == result@.take(result@.len() - 1)[k]);
                        }
                        assert(result.deep_view() =~= old_signals.push(sv));
                        lemma_push_signal(old_signals, sv, pv, i as int);
                    }
                },
                None => {
                    proof {
                        lemma_step_without_signal(result.deep_view(), pv, i as int);
                    }
                },
            }
        } else {
            proof {
                lemma_step_without_signal(result.deep_view(), pv, i as int);
            }
        }
        i = i + 1;
    }
    proof {
        assert forall|b: Seq<char>, q: Seq<char>|
            spec_qualifies(#[trigger] spec_group(pv, b, q)) implies has_signal_for(
            result.deep_view(),
            b,
            q,
        ) by {
            let g = spec_group(pv, b, q);
            lemma_group_members(pv, b, q);
            lemma_group_member_has_index(pv, b, q);
            let pi = choose|pi: int| 0 <= pi < pv.len() && spec_key_match(#[trigger] pv[pi], b, q);
            lemma_first_occurrence(pv, pi);
            let m = choose|m: int|
                0 <= m < pv.len() && spec_first_occ(pv, m) && (#[trigger] pv[m]).base_token.symbol
                    == pv[pi].base_token.symbol && pv[m].quote_token.symbol
                    == pv[pi].quote_token.symbol;
            assert(pv[m].base_token.symbol == b && pv[m].quote_token.symbol == q);
            assert(spec_qualifies(spec_group(pv, pv[m].base_token.symbol, pv[m].quote_token.symbol)));
        }
    }
    result
}

/// Whether the pair at `i` is the first of its identity in the
/// snapshot.
fn is_first_occurrence(pairs: &Vec<TradingPair>, i: usize) -> (r: bool)
    requires
        i < pairs.deep_view().len(),
    ensures
        r == spec_first_occ(pairs.deep_view(), i as int),
{
    let ghost pv = pairs.deep_view();
    let mut j: usize = 0;
    while j < i
        invariant
            j <= i < pv.len(),
            pv == pairs.deep_view(),
            forall|m: int|
                0 <= m < j ==> !spec_key_match(
                    #[trigger] pv[m],
                    pv[i as int].base_token.symbol,
                    pv[i as int].quote_token.symbol,
                ),
        decreases i - j,
    {
        let hit = pairs[j].base_token.symbol == pairs[i].base_token.symbol
            && pairs[j].quote_token.symbol == pairs[i].quote_token.symbol;
        if hit {
            proof {
                assert(spec_key_match(
                    pv[j as int],
                    pv[i as int].base_token.symbol,
                    pv[i as int].quote_token.symbol,
                ));
            }
            return false;
        }
        j = j + 1;
    }
    true
}

} // verus!
