//! Time-stamped store for per-pair price and liquidity entries.
//!
//! Each entry is keyed by the pair identity and the metric kind, held
//! as explicit fields rather than a formatted string, so that two
//! keys collide exactly when base, quote and kind all agree.

use vstd::pervasive::VecAdditionalExecFns;
use vstd::prelude::*;

use crate::models::CachedPrice;

verus! {

/// Which metric a cache entry records.
#[derive(Debug, Clone, Copy, PartialEq, Eq, Structural, Hash)]
pub enum MetricKind {
    Price,
    Liquidity,
}

/// The key of one cache entry.
#[derive(Debug, Clone)]
pub struct CacheKey {
    pub base: String,
    pub quote: String,
    pub kind: MetricKind,
}

/// Whether `k` stands for the pair `base/quote` and metric `kind`.
pub open spec fn spec_key_is(k: CacheKey, base: Seq<char>, quote: Seq<char>, kind: MetricKind) -> bool {
    k.base@ == base && k.quote@ == quote && k.kind == kind
}

/// First entry whose key stands for the given triple, scanning from
/// the front.
pub open spec fn spec_lookup(
    s: Seq<(CacheKey, CachedPrice)>,
    base: Seq<char>,
    quote: Seq<char>,
    kind: MetricKind,
) -> Option<CachedPrice>
    decreases s.len(),
{
    if s.len() == 0 {
        None
    } else if spec_key_is(s[0].0, base, quote, kind) {
        Some(s[0].1)
    } else {
        spec_lookup(s.drop_first(), base, quote, kind)
    }
}

/// No two entries of `s` share a key.
pub open spec fn spec_unique_keys(s: Seq<(CacheKey, CachedPrice)>) -> bool {
    forall|i: int, j: int|
        #![trigger s[i], s[j]]
        0 <= i < j < s.len() ==> !spec_key_is(s[j].0, s[i].0.base@, s[i].0.quote@, s[i].0.kind)
}

/// The per-pair metric store.  Keys are unique, so the entry a lookup
/// finds is the only one for its key.
pub struct CacheStore {
    entries: Vec<(CacheKey, CachedPrice)>,
}

impl CacheStore {
    pub closed spec fn spec_entries(self) -> Seq<(CacheKey, CachedPrice)> {
        self.entries@
    }

    /// No two entries share a key.
    pub open spec fn wf(self) -> bool {
        spec_unique_keys(self.spec_entries())
    }

    /// The entry stored for the given pair and metric, if any.
    pub open spec fn spec_get(
        self,
        base: Seq<char>,
        quote: Seq<char>,
        kind: MetricKind,
    ) -> Option<CachedPrice> {
        spec_lookup(self.spec_entries(), base, quote, kind)
    }

    pub fn new() -> (r: CacheStore)
        ensures
            r.wf(),
            forall|b: Seq<char>, q: Seq<char>, kd: MetricKind|
                #[trigger] r.spec_get(b, q, kd) is None,
    {
        CacheStore { entries: Vec::new() }
    }

    /// Look an entry up by pair identity and metric.
    pub fn get(&self, base: &str, quote: &str, kind: MetricKind) -> (r: Option<&CachedPrice>)
        ensures
            match r {
                Some(c) => self.spec_get(base@, quote@, kind) == Some(*c),
                None => self.spec_get(base@, quote@, kind) is None,
            },
    {
        let b = base.to_owned();
        let q = quote.to_owned();
        let mut i: usize = 0;
        while i < self.entries.len()
            invariant
                i <= self.entries@.len(),
                b@ == base@,
                q@ == quote@,
                forall|j: int| 0 <= j < i ==> !spec_key_is(self.entries@[j].0, base@, quote@, kind),
            decreases self.entries@.len() - i,
        {
            let hit = self.entries[i].0.base == b && self.entries[i].0.quote == q
                && self.entries[i].0.kind == kind;
            if hit {
                proof {
                    lemma_lookup_skip_prefix(self.entries@, i as int, base@, quote@, kind);
                    assert(self.entries@.skip(i as int)[0] == self.entries@[i as int]);
                }
                return Some(&self.entries[i].1);
            }
            i = i + 1;
        }
        proof {
            lemma_lookup_skip_prefix(self.entries@, self.entries@.len() as int, base@, quote@, kind);
            assert(self.entries@.skip(self.entries@.len() as int) =~= Seq::<(
                CacheKey,
                CachedPrice,
            )>::empty());
        }
        None
    }

    /// Index of the entry whose key stands for the same triple as
    /// `key`, if one exists.
    fn position_of(entries: &Vec<(CacheKey, CachedPrice)>, key: &CacheKey) -> (r: Option<usize>)
        ensures
            match r {
                Some(i) => i < entries@.len() && spec_key_is(
                    entries@[i as int].0,
                    key.base@,
                    key.quote@,
                    key.kind,
                ) && forall|j: int|
                    0 <= j < i ==> !spec_key_is(
                        #[trigger] entries@[j].0,
                        key.base@,
                        key.quote@,
                        key.kind,
                    ),
                None => forall|j: int|
                    0 <= j < entries@.len() ==> !spec_key_is(
                        #[trigger] entries@[j].0,
                        key.base@,
                        key.quote@,
                        key.kind,
                    ),
            },
    {
        let mut i: usize = 0;
        while i < entries.len()
            invariant
                i <= entries@.len(),
                forall|j: int|
                    0 <= j < i ==> !spec_key_is(
                        #[trigger] entries@[j].0,
                        key.base@,
                        key.quote@,
                        key.kind,
                    ),
            decreases entries@.len() - i,
        {
            let hit = entries[i].0.base == key.base && entries[i].0.quote == key.quote
                && entries[i].0.kind == key.kind;
            if hit {
                return Some(i);
            }
            i = i + 1;
        }
        None
    }

    /// Insert or overwrite the entry for `key`; every other entry is
    /// left as it was.
    pub fn insert(&mut self, key: CacheKey, value: CachedPrice)
        requires
            old(self).wf(),
        ensures
            final(self).wf(),
            forall|b: Seq<char>, q: Seq<char>, kd: MetricKind|
                #[trigger] final(self).spec_get(b, q, kd) == if spec_key_is(key, b, q, kd) {
                    Some(value)
                } else {
                    old(self).spec_get(b, q, kd)
                },
    {
        let ghost old_entries = self.entries@;
        match Self::position_of(&self.entries, &key) {
            Some(i) => {
                self.entries.set(i, (key, value));
                proof {
                    let new_entries = self.entries@;
                    assert(new_entries[i as int].1 == value);
                    assert forall|b: Seq<char>, q: Seq<char>, kd: MetricKind|
                        #[trigger] self.spec_get(b, q, kd) == if spec_key_is(key, b, q, kd) {
                            Some(value)
                        } else {
                            spec_lookup(old_entries, b, q, kd)
                        } by {
                        if spec_key_is(key, b, q, kd) {
                            assert forall|j: int| 0 <= j < i implies !spec_key_is(
                                #[trigger] new_entries[j].0,
                                b,
                                q,
                                kd,
                            ) by {
                                assert(new_entries[j] == old_entries[j]);
                                assert(!spec_key_is(old_entries[j].0, key.base@, key.quote@, key.kind));
                            }
                            lemma_lookup_skip_prefix(new_entries, i as int, b, q, kd);
                            assert(new_entries.skip(i as int)[0] == new_entries[i as int]);
                            assert(spec_key_is(new_entries[i as int].0, b, q, kd));
                            assert(spec_lookup(new_entries.skip(i as int), b, q, kd) == Some(value));
                        } else {
                            assert forall|j: int| 0 <= j < new_entries.len() implies (spec_key_is(
                                #[trigger] new_entries[j].0,
                                b,
                                q,
                                kd,
                            ) == spec_key_is(old_entries[j].0, b, q, kd)) by {
                                if j != i {
                                    assert(new_entries[j] == old_entries[j]);
                                } else {
                                    assert(spec_key_is(
                                        old_entries[i as int].0,
                                        key.base@,
                                        key.quote@,
                                        key.kind,
                                    ));
                                }
                            }
                            assert forall|j: int|
                                0 <= j < new_entries.len() && spec_key_is(
                                    #[trigger] new_entries[j].0,
                                    b,
                                    q,
                                    kd,
                                ) implies new_entries[j].1 == old_entries[j].1 by {
                                if j != i {
                                    assert(new_entries[j] == old_entries[j]);
                                }
                            }
                            lemma_lookup_equiv(new_entries, old_entries, b, q, kd);
                        }
                    }
                    assert forall|i2: int, j2: int|
                        #![trigger new_entries[i2], new_entries[j2]]
                        0 <= i2 < j2 < new_entries.len() implies !spec_key_is(
                        new_entries[j2].0,
                        new_entries[i2].0.base@,
                        new_entries[i2].0.quote@,
                        new_entries[i2].0.kind,
                    ) by {
                        assert(spec_key_is(old_entries[i as int].0, key.base@, key.quote@, key.kind));
                        if i2 == i as int {
                            assert(new_entries[j2] == old_entries[j2]);
                            assert(!spec_key_is(
                                old_entries[j2].0,
                                old_entries[i as int].0.base@,
                                old_entries[i as int].0.quote@,
                                old_entries[i as int].0.kind,
                            ));
                        } else if j2 == i as int {
                            assert(new_entries[i2] == old_entries[i2]);
                            assert(!spec_key_is(
                                old_entries[i as int].0,
                                old_entries[i2].0.base@,
                                old_entries[i2].0.quote@,
                                old_entries[i2].0.kind,
                            ));
                        } else {
                            assert(new_entries[i2] == old_entries[i2]);
                            assert(new_entries[j2] == old_entries[j2]);
                            assert(!spec_key_is(
                                old_entries[j2].0,
                                old_entries[i2].0.base@,
                                old_entries[i2].0.quote@,
                                old_entries[i2].0.kind,
                            ));
                        }
                    }
                }
            },
            None => {
                self.entries.push((key, value));
                proof {
                    let new_entries = self.entries@;
                    assert(new_entries == old_entries.push((key, value)));
                    assert forall|b: Seq<char>, q: Seq<char>, kd: MetricKind|
                        #[trigger] self.spec_get(b, q, kd) == if spec_key_is(key, b, q, kd) {
                            Some(value)
                        } else {
                            spec_lookup(old_entries, b, q, kd)
                        } by {
                        lemma_lookup_push(old_entries, (key, value), b, q, kd);
                        if spec_key_is(key, b, q, kd) {
                            assert forall|j: int| 0 <= j < old_entries.len() implies !spec_key_is(
                                #[trigger] old_entries[j].0,
                                b,
                                q,
                                kd,
                            ) by {
                                assert(!spec_key_is(old_entries[j].0, key.base@, key.quote@, key.kind));
                            }
                            lemma_lookup_none_when_unmatched(old_entries, b, q, kd);
                        }
                    }
                    assert forall|i2: int, j2: int|
                        #![trigger new_entries[i2], new_entries[j2]]
                        0 <= i2 < j2 < new_entries.len() implies !spec_key_is(
                        new_entries[j2].0,
                        new_entries[i2].0.base@,
                        new_entries[i2].0.quote@,
                        new_entries[i2].0.kind,
                    ) by {
                        if j2 < old_entries.len() {
                            assert(new_entries[i2] == old_entries[i2]);
                            assert(new_entries[j2] == old_entries[j2]);
                            assert(!spec_key_is(
                                old_entries[j2].0,
                                old_entries[i2].0.base@,
                                old_entries[i2].0.quote@,
                                old_entries[i2].0.kind,
                            ));
                        } else {
                            assert(new_entries[i2] == old_entries[i2]);
                            assert(!spec_key_is(
                                old_entries[i2].0,
                                key.base@,
                                key.quote@,
                                key.kind,
                            ));
                        }
                    }
                }
            },
        }
    }
}

proof fn lemma_lookup_skip_prefix(
    s: Seq<(CacheKey, CachedPrice)>,
    i: int,
    b: Seq<char>,
    q: Seq<char>,
    kd: MetricKind,
)
    requires
        0 <= i <= s.len(),
        forall|j: int| 0 <= j < i ==> !spec_key_is(#[trigger] s[j].0, b, q, kd),
    ensures
        spec_lookup(s, b, q, kd) == spec_lookup(s.skip(i), b, q, kd),
    decreases i,
{
    if i > 0 {
        let s1 = s.drop_first();
        assert(forall|j: int| 0 <= j < i - 1 ==> !spec_key_is(#[trigger] s1[j].0, b, q, kd));
        lemma_lookup_skip_prefix(s1, i - 1, b, q, kd);
        assert(s1.skip(i - 1) =~= s.skip(i));
    } else {
        assert(s.skip(0) =~= s);
    }
}

proof fn lemma_lookup_none_when_unmatched(
    s: Seq<(CacheKey, CachedPrice)>,
    b: Seq<char>,
    q: Seq<char>,
    kd: MetricKind,
)
    requires
        forall|j: int| 0 <= j < s.len() ==> !spec_key_is(#[trigger] s[j].0, b, q, kd),
    ensures
        spec_lookup(s, b, q, kd) is None,
    decreases s.len(),
{
    if s.len() > 0 {
        lemma_lookup_none_when_unmatched(s.drop_first(), b, q, kd);
    }
}

proof fn lemma_lookup_equiv(
    s1: Seq<(CacheKey, CachedPrice)>,
    s2: Seq<(CacheKey, CachedPrice)>,
    b: Seq<char>,
    q: Seq<char>,
    kd: MetricKind,
)
    requires
        s1.len() == s2.len(),
        forall|j: int|
            0 <= j < s1.len() ==> (spec_key_is(#[trigger] s1[j].0, b, q, kd) == spec_key_is(
                s2[j].0,
                b,
                q,
                kd,
            )),
        forall|j: int|
            0 <= j < s1.len() && spec_key_is(#[trigger] s1[j].0, b, q, kd) ==> s1[j].1 == s2[j].1,
    ensures
        spec_lookup(s1, b, q, kd) == spec_lookup(s2, b, q, kd),
    decreases s1.len(),
{
    if s1.len() > 0 {
        if spec_key_is(s1[0].0, b, q, kd) {
        } else {
            lemma_lookup_equiv(s1.drop_first(), s2.drop_first(), b, q, kd);
        }
    }
}

proof fn lemma_lookup_push(
    s: Seq<(CacheKey, CachedPrice)>,
    e: (CacheKey, CachedPrice),
    b: Seq<char>,
    q: Seq<char>,
    kd: MetricKind,
)
    ensures
        spec_lookup(s.push(e), b, q, kd) == if spec_lookup(s, b, q, kd) is Some {
            spec_lookup(s, b, q, kd)
        } else if spec_key_is(e.0, b, q, kd) {
            Some(e.1)
        } else {
            None::<CachedPrice>
        },
    decreases s.len(),
{
    let t = s.push(e);
    if s.len() == 0 {
        assert(t[0] == e);
        assert(t.drop_first() =~= Seq::<(CacheKey, CachedPrice)>::empty());
        assert(spec_lookup(s, b, q, kd) is None);
        if spec_key_is(e.0, b, q, kd) {
            assert(spec_lookup(t, b, q, kd) == Some(e.1));
        } else {
            assert(spec_lookup(t.drop_first(), b, q, kd) is None);
            assert(spec_lookup(t, b, q, kd) is None);
        }
    } else {
        assert(t[0] == s[0]);
        assert(t.drop_first() =~= s.drop_first().push(e));
        lemma_lookup_push(s.drop_first(), e, b, q, kd);
        if spec_key_is(s[0].0, b, q, kd) {
            assert(spec_lookup(t, b, q, kd) == Some(s[0].1));
            assert(spec_lookup(s, b, q, kd) == Some(s[0].1));
        } else {
            assert(spec_lookup(t, b, q, kd) == spec_lookup(s.drop_first().push(e), b, q, kd));
            assert(spec_lookup(s, b, q, kd) == spec_lookup(s.drop_first(), b, q, kd));
        }
    }
}

} // verus!
