//! Fixed-point decimal amounts.
//!
//! Prices and liquidity figures are held as a signed number of
//! billionths (nine fractional decimal digits), so that every
//! comparison and every spread computation is exact integer
//! arithmetic.  The representable range is capped well below the
//! limits of `i128` so that the scanner's intermediate products
//! cannot overflow.

use vstd::prelude::*;

verus! {

/// Number of raw units per whole unit (nine fractional digits).
pub const UNIT: i128 = 1_000_000_000;

/// Largest magnitude a raw value may take.
pub const MAX_RAW: i128 = 100_000_000_000_000_000_000_000_000;

/// Largest whole number that `Dec::from_int` accepts (`MAX_RAW / UNIT`).
pub const MAX_WHOLE: u64 = 100_000_000_000_000_000;

/// A fixed-point decimal amount: the represented value is `raw / UNIT`.
#[derive(Clone, Copy, Debug, PartialEq, Eq, PartialOrd, Ord, Structural)]
pub struct Dec {
    raw: i128,
}

impl View for Dec {
    type V = int;

    open spec fn view(&self) -> int {
        self.spec_raw()
    }
}

impl DeepView for Dec {
    type V = int;

    open spec fn deep_view(&self) -> int {
        self.spec_raw()
    }
}

impl Dec {
    /// The raw number of billionths.
    pub closed spec fn spec_raw(self) -> int {
        self.raw as int
    }

    /// Within the representable range.
    pub open spec fn wf(self) -> bool {
        -(MAX_RAW as int) <= self.spec_raw() <= MAX_RAW as int
    }

    pub fn zero() -> (r: Dec)
        ensures
            r.spec_raw() == 0,
            r.wf(),
    {
        Dec { raw: 0 }
    }

    /// The amount standing for the whole number `v`.
    pub fn from_int(v: u64) -> (r: Dec)
        requires
            v <= MAX_WHOLE,
        ensures
            r.spec_raw() == v * UNIT,
            r.wf(),
    {
        Dec { raw: (v as i128) * UNIT }
    }

    /// The amount with the given raw number of billionths.
    pub fn from_raw(raw: i128) -> (r: Dec)
        ensures
            r.spec_raw() == raw,
    {
        Dec { raw }
    }

    pub fn raw(&self) -> (r: i128)
        ensures
            r == self.spec_raw(),
    {
        self.raw
    }

    pub fn is_positive(&self) -> (r: bool)
        ensures
            r == (self.spec_raw() > 0),
    {
        self.raw > 0
    }

    pub fn lt(&self, other: &Dec) -> (r: bool)
        ensures
            r == (self.spec_raw() < other.spec_raw()),
    {
        self.raw < other.raw
    }

    pub fn le(&self, other: &Dec) -> (r: bool)
        ensures
            r == (self.spec_raw() <= other.spec_raw()),
    {
        self.raw <= other.raw
    }

    pub fn gt(&self, other: &Dec) -> (r: bool)
        ensures
            r == (self.spec_raw() > other.spec_raw()),
    {
        self.raw > other.raw
    }

    pub fn ge(&self, other: &Dec) -> (r: bool)
        ensures
            r == (self.spec_raw() >= other.spec_raw()),
    {
        self.raw >= other.raw
    }
}

/// Whether the relative spread between `low` and `high` (both raw
/// values, `low` attained as a minimum and `high` as a maximum)
/// strictly exceeds half a percent: `(high - low) / low * 100 > 0.5`,
/// cleared of the division.
pub open spec fn spec_spread_exceeds(low: int, high: int) -> bool {
    low > 0 && (high - low) * 200 > low
}

/// The spread between `low` and `high` as a percentage, in raw
/// billionths, rounded toward zero.
pub open spec fn spec_spread_pct_raw(low: int, high: int) -> int
    recommends
        0 < low <= high,
{
    ((high - low) * 100 * UNIT) / low
}

/// `net / input * 100` in raw billionths, rounded toward zero.
pub open spec fn spec_ratio_pct_raw(net: int, input: int) -> int
    recommends
        input > 0,
{
    if net >= 0 {
        (net * 100 * UNIT) / input
    } else {
        -(((-net) * 100 * UNIT) / input)
    }
}

/// Whether the spread from `low` up to `high` strictly exceeds the
/// half-percent signal threshold.
pub fn spread_exceeds_threshold(low: &Dec, high: &Dec) -> (r: bool)
    requires
        low.wf(),
        high.wf(),
    ensures
        r == spec_spread_exceeds(low.spec_raw(), high.spec_raw()),
{
    low.raw > 0 && (high.raw - low.raw) * 200 > low.raw
}

/// The spread between `low` and `high` as a percentage.
pub fn spread_pct(low: &Dec, high: &Dec) -> (r: Dec)
    requires
        low.wf(),
        high.wf(),
        0 < low.spec_raw() <= high.spec_raw(),
    ensures
        r.spec_raw() == spec_spread_pct_raw(low.spec_raw(), high.spec_raw()),
{
    Dec { raw: ((high.raw - low.raw) * 100 * UNIT) / low.raw }
}

/// `net / input * 100` as a percentage, rounded toward zero.
pub fn ratio_pct(net: &Dec, input: &Dec) -> (r: Dec)
    requires
        net.wf(),
        input.wf(),
        input.spec_raw() > 0,
    ensures
        r.spec_raw() == spec_ratio_pct_raw(net.spec_raw(), input.spec_raw()),
{
    if net.raw >= 0 {
        Dec { raw: (net.raw * 100 * UNIT) / input.raw }
    } else {
        Dec { raw: -(((-net.raw) * 100 * UNIT) / input.raw) }
    }
}

/// Whether `c` is one of the ten decimal digit characters.
pub open spec fn is_dec_digit(c: char) -> bool {
    ('0' as u32) <= (c as u32) && (c as u32) <= ('9' as u32)
}

/// The numeric value of a digit character.
pub open spec fn digit_val(c: char) -> int {
    (c as u32) as int - ('0' as u32) as int
}

/// Every character of `s` is a decimal digit.
pub open spec fn all_digits(s: Seq<char>) -> bool {
    forall|i: int| 0 <= i < s.len() ==> is_dec_digit(#[trigger] s[i])
}

/// The number denoted by a sequence of digit characters, read in base ten.
pub open spec fn digits_val(s: Seq<char>) -> int
    decreases s.len(),
{
    if s.len() == 0 {
        0
    } else {
        digits_val(s.drop_last()) * 10 + digit_val(s.last())
    }
}

/// Ten to the `n`.
pub open spec fn pow10(n: nat) -> int
    decreases n,
{
    if n == 0 {
        1
    } else {
        10 * pow10((n - 1) as nat)
    }
}

/// A sequence of `n` zero characters.
pub open spec fn zeros(n: nat) -> Seq<char> {
    Seq::new(n, |i: int| '0')
}

/// The fractional digits of `s` when split at `k` (empty when there is
/// no decimal point, that is when `k == s.len()`).
pub open spec fn spec_frac_digits(s: Seq<char>, k: int) -> Seq<char> {
    if k == s.len() {
        Seq::<char>::empty()
    } else {
        s.skip(k + 1)
    }
}

/// `k` splits `s` into digits, an optional decimal point, and digits,
/// with at least one digit overall.  At most one position can do so.
pub open spec fn valid_split(s: Seq<char>, k: int) -> bool {
    &&& 0 <= k <= s.len()
    &&& (k < s.len() ==> s[k] == '.')
    &&& all_digits(s.take(k))
    &&& all_digits(spec_frac_digits(s, k))
    &&& (k > 0 || spec_frac_digits(s, k).len() > 0)
}

/// The fractional digits scaled to nine places: truncated beyond the
/// ninth place, padded with zeros before it.
pub open spec fn frac_units(f: Seq<char>) -> int {
    if f.len() >= 9 {
        digits_val(f.take(9))
    } else {
        digits_val(f + zeros((9 - f.len()) as nat))
    }
}

/// The raw fixed-point value of `s` split at `k`.
pub open spec fn dec_raw_at(s: Seq<char>, k: int) -> int {
    digits_val(s.take(k)) * UNIT + frac_units(spec_frac_digits(s, k))
}

/// What parsing yields on `s`: the raw value when `s` is an unsigned
/// decimal numeral that fits the representable range, nothing
/// otherwise.
pub open spec fn spec_parse_dec(s: Seq<char>) -> Option<int> {
    if exists|k: int| valid_split(s, k) {
        let k = choose|k: int| valid_split(s, k);
        if dec_raw_at(s, k) <= MAX_RAW as int {
            Some(dec_raw_at(s, k))
        } else {
            None
        }
    } else {
        None
    }
}

proof fn lemma_digits_val_nonneg(s: Seq<char>)
    requires
        all_digits(s),
    ensures
        digits_val(s) >= 0,
    decreases s.len(),
{
    if s.len() > 0 {
        assert(all_digits(s.drop_last()));
        lemma_digits_val_nonneg(s.drop_last());
    }
}

proof fn lemma_digits_take_step(s: Seq<char>, j: int)
    requires
        0 <= j < s.len(),
    ensures
        digits_val(s.take(j + 1)) == digits_val(s.take(j)) * 10 + digit_val(s[j]),
{
    assert(s.take(j + 1).drop_last() =~= s.take(j));
    assert(s.take(j + 1).last() == s[j]);
}

proof fn lemma_digits_prefix_le(s: Seq<char>, j: int)
    requires
        all_digits(s),
        0 <= j <= s.len(),
    ensures
        digits_val(s.take(j)) <= digits_val(s),
    decreases s.len(),
{
    if j == s.len() {
        assert(s.take(j) =~= s);
    } else {
        let t = s.drop_last();
        assert(all_digits(t));
        assert(s.take(j) =~= t.take(j));
        lemma_digits_prefix_le(t, j);
        lemma_digits_val_nonneg(t);
        assert(digits_val(s) == digits_val(t) * 10 + digit_val(s.last()));
        assert(digit_val(s.last()) >= 0);
        assert(digits_val(t) * 10 >= digits_val(t));
    }
}

proof fn lemma_zeros_pad(a: Seq<char>, m: nat)
    ensures
        digits_val(a + zeros(m)) == digits_val(a) * pow10(m),
    decreases m,
{
    if m == 0 {
        assert(a + zeros(0) =~= a);
    } else {
        let shorter = zeros((m - 1) as nat);
        assert((a + zeros(m)).drop_last() =~= a + shorter);
        assert((a + zeros(m)).last() == '0');
        lemma_zeros_pad(a, (m - 1) as nat);
        assert(digits_val(a + zeros(m)) == digits_val(a) * pow10((m - 1) as nat) * 10);
        assert(digits_val(a) * pow10((m - 1) as nat) * 10 == digits_val(a) * (pow10((m - 1) as nat)
            * 10)) by (nonlinear_arith);
    }
}

proof fn lemma_pow10_pos(n: nat)
    ensures
        pow10(n) >= 1,
    decreases n,
{
    if n > 0 {
        lemma_pow10_pos((n - 1) as nat);
    }
}

proof fn lemma_pow10_add(a: nat, b: nat)
    ensures
        pow10(a) * pow10(b) == pow10(a + b),
    decreases b,
{
    if b == 0 {
        assert(pow10(a) * 1 == pow10(a));
    } else {
        lemma_pow10_add(a, (b - 1) as nat);
        assert(pow10(a) * (10 * pow10((b - 1) as nat)) == 10 * (pow10(a) * pow10(
            (b - 1) as nat,
        ))) by (nonlinear_arith);
    }
}

proof fn lemma_digits_val_upper(s: Seq<char>)
    requires
        all_digits(s),
    ensures
        digits_val(s) < pow10(s.len()),
    decreases s.len(),
{
    if s.len() == 0 {
    } else {
        let t = s.drop_last();
        assert(all_digits(t));
        lemma_digits_val_upper(t);
        assert(digit_val(s.last()) <= 9);
        assert(digits_val(t) * 10 <= (pow10(t.len()) - 1) * 10) by (nonlinear_arith)
            requires
                digits_val(t) <= pow10(t.len()) - 1,
        ;
    }
}

proof fn lemma_valid_split_unique(s: Seq<char>, k1: int, k2: int)
    requires
        valid_split(s, k1),
        valid_split(s, k2),
    ensures
        k1 == k2,
{
    if k1 < k2 {
        assert(s[k1] == '.');
        assert(is_dec_digit(s.take(k2)[k1]));
    } else if k2 < k1 {
        assert(s[k2] == '.');
        assert(is_dec_digit(s.take(k1)[k2]));
    }
}

fn find_dot(s: &str, n: usize) -> (r: usize)
    requires
        n == s@.len(),
    ensures
        r <= n,
        r < n ==> s@[r as int] == '.',
        forall|j: int| 0 <= j < r ==> s@[j] != '.',
{
    let mut i: usize = 0;
    while i < n
        invariant
            i <= n,
            n == s@.len(),
            forall|j: int| 0 <= j < i ==> s@[j] != '.',
        decreases n - i,
    {
        if s.get_char(i) == '.' {
            return i;
        }
        i = i + 1;
    }
    n
}

fn all_digits_in(s: &str, from: usize, to: usize) -> (r: bool)
    requires
        from <= to <= s@.len(),
    ensures
        r == all_digits(s@.subrange(from as int, to as int)),
{
    let ghost sub = s@.subrange(from as int, to as int);
    let mut i: usize = from;
    while i < to
        invariant
            from <= i <= to <= s@.len(),
            sub == s@.subrange(from as int, to as int),
            forall|j: int| from <= j < i ==> is_dec_digit(#[trigger] s@[j]),
        decreases to - i,
    {
        let c = s.get_char(i);
        if !(('0' as u32) <= (c as u32) && (c as u32) <= ('9' as u32)) {
            proof {
                assert(sub[i - from] == s@[i as int]);
            }
            return false;
        }
        i = i + 1;
    }
    proof {
        assert forall|j: int| 0 <= j < sub.len() implies is_dec_digit(#[trigger] sub[j]) by {
            assert(sub[j] == s@[from + j]);
        }
    }
    true
}

fn digits_value_in(s: &str, from: usize, to: usize) -> (r: Option<i128>)
    requires
        from <= to <= s@.len(),
        all_digits(s@.subrange(from as int, to as int)),
    ensures
        match r {
            Some(v) => 0 <= v <= MAX_WHOLE as i128 && v == digits_val(
                s@.subrange(from as int, to as int),
            ),
            None => digits_val(s@.subrange(from as int, to as int)) > MAX_WHOLE as int,
        },
{
    let ghost sub = s@.subrange(from as int, to as int);
    let mut acc: i128 = 0;
    let mut i: usize = from;
    while i < to
        invariant
            from <= i <= to <= s@.len(),
            sub == s@.subrange(from as int, to as int),
            all_digits(sub),
            0 <= acc <= MAX_WHOLE as i128,
            acc == digits_val(sub.take(i - from)),
        decreases to - i,
    {
        let c = s.get_char(i);
        proof {
            assert(sub[i - from] == s@[i as int]);
            assert(is_dec_digit(s@[i as int]));
        }
        let d = (c as u32) - ('0' as u32);
        let acc2 = acc * 10 + (d as i128);
        proof {
            lemma_digits_take_step(sub, i - from);
        }
        if acc2 > (MAX_WHOLE as i128) {
            proof {
                lemma_digits_prefix_le(sub, i + 1 - from);
            }
            return None;
        }
        acc = acc2;
        i = i + 1;
    }
    proof {
        assert(sub.take(to - from) =~= sub);
    }
    Some(acc)
}

/// Parse a plain unsigned numeral (digits and at most one point,
/// signs and separators already handled), truncating fractional
/// digits beyond the ninth place.
fn parse_numeral(s: &str) -> (r: Option<Dec>)
    ensures
        match r {
            Some(d) => spec_parse_dec(s@) == Some(d.spec_raw()) && d.wf() && d.spec_raw() >= 0,
            None => spec_parse_dec(s@) is None,
        },
{
    let n = s.unicode_len();
    let dot = find_dot(s, n);
    if !all_digits_in(s, 0, dot) {
        proof {
            let m = choose|m: int|
                0 <= m < dot && !is_dec_digit(#[trigger] s@.subrange(0, dot as int)[m]);
            assert(!is_dec_digit(s@[m]));
            assert forall|k: int| !valid_split(s@, k) by {
                if valid_split(s@, k) {
                    if k > m {
                        assert(is_dec_digit(s@.take(k)[m]));
                    } else {
                        assert(s@[k] == '.');
                    }
                }
            }
        }
        return None;
    }
    let frac_from = if dot < n {
        dot + 1
    } else {
        n
    };
    if !all_digits_in(s, frac_from, n) {
        proof {
            let m = choose|m: int|
                0 <= m < n - frac_from && !is_dec_digit(
                    #[trigger] s@.subrange(frac_from as int, n as int)[m],
                );
            assert(!is_dec_digit(s@[frac_from + m]));
            assert forall|k: int| !valid_split(s@, k) by {
                if valid_split(s@, k) {
                    if k < dot {
                        assert(s@[k] == '.');
                    } else if k == dot {
                        assert(is_dec_digit(spec_frac_digits(s@, k)[frac_from + m - k - 1]));
                    } else {
                        assert(is_dec_digit(s@.take(k)[dot as int]));
                    }
                }
            }
        }
        return None;
    }
    if dot == 0 && frac_from == n {
        proof {
            assert forall|k: int| !valid_split(s@, k) by {
                if valid_split(s@, k) {
                    if k > 0 {
                        assert(is_dec_digit(s@.take(k)[0]));
                    }
                }
            }
        }
        return None;
    }
    proof {
        assert(s@.take(dot as int) =~= s@.subrange(0, dot as int));
        if dot < n {
            assert(spec_frac_digits(s@, dot as int) =~= s@.subrange(frac_from as int, n as int));
        } else {
            assert(spec_frac_digits(s@, dot as int) =~= s@.subrange(frac_from as int, n as int));
        }
        assert(valid_split(s@, dot as int));
    }
    let int_v = match digits_value_in(s, 0, dot) {
        Some(v) => v,
        None => {
            proof {
                lemma_parse_is_at(s@, dot as int);
                lemma_frac_units_nonneg(spec_frac_digits(s@, dot as int));
                assert(digits_val(s@.take(dot as int)) >= MAX_WHOLE as int + 1);
                assert(digits_val(s@.take(dot as int)) * UNIT >= (MAX_WHOLE as int + 1) * UNIT)
                    by (nonlinear_arith)
                    requires
                        digits_val(s@.take(dot as int)) >= MAX_WHOLE as int + 1,
                ;
            }
            return None;
        },
    };
    let frac_len = n - frac_from;
    let t = if frac_len > 9 {
        9
    } else {
        frac_len
    };
    proof {
        assert forall|j: int|
            0 <= j < t ==> is_dec_digit(
                #[trigger] s@.subrange(frac_from as int, (frac_from + t) as int)[j],
            ) by {
            if 0 <= j < t {
                assert(s@.subrange(frac_from as int, (frac_from + t) as int)[j] == s@.subrange(
                    frac_from as int,
                    n as int,
                )[j]);
            }
        }
    }
    let fv = match digits_value_in(s, frac_from, frac_from + t) {
        Some(v) => v,
        None => {
            proof {
                lemma_digits_val_upper(s@.subrange(frac_from as int, (frac_from + t) as int));
                lemma_pow10_le_nine(t as nat);
                assert(false);
            }
            0
        },
    };
    proof {
        lemma_digits_val_upper(s@.subrange(frac_from as int, (frac_from + t) as int));
    }
    let mut mult: i128 = 1;
    let mut j: usize = t;
    while j < 9
        invariant
            t <= j <= 9,
            mult == pow10((j - t) as nat),
            1 <= mult,
            mult <= UNIT,
        decreases 9 - j,
    {
        proof {
            lemma_pow10_le_nine((j + 1 - t) as nat);
        }
        mult = mult * 10;
        j = j + 1;
    }
    proof {
        lemma_pow10_le_nine(t as nat);
        lemma_pow10_le_nine((9 - t) as nat);
        lemma_pow10_add(t as nat, (9 - t) as nat);
        assert(fv * mult < pow10(t as nat) * pow10((9 - t) as nat)) by (nonlinear_arith)
            requires
                0 <= fv,
                fv < pow10(t as nat),
                1 <= mult,
                mult == pow10((9 - t) as nat),
        ;
        assert(fv * mult >= 0) by (nonlinear_arith)
            requires
                0 <= fv,
                1 <= mult,
        ;
        reveal_with_fuel(pow10, 11);
        assert(pow10(9) == UNIT as int);
    }
    let frac_total = fv * mult;
    proof {
        let f = spec_frac_digits(s@, dot as int);
        if frac_len >= 9 {
            assert(f.take(9) =~= s@.subrange(frac_from as int, (frac_from + t) as int));
            assert(frac_units(f) == frac_total);
        } else {
            assert(f =~= s@.subrange(frac_from as int, (frac_from + t) as int));
            lemma_zeros_pad(f, (9 - f.len()) as nat);
            assert(frac_units(f) == frac_total);
        }
        assert(int_v * UNIT <= (MAX_WHOLE as i128) * UNIT) by (nonlinear_arith)
            requires
                0 <= int_v <= MAX_WHOLE as i128,
        ;
        assert(int_v * UNIT >= 0) by (nonlinear_arith)
            requires
                0 <= int_v,
        ;
    }
    let raw = int_v * UNIT + frac_total;
    proof {
        assert(raw == dec_raw_at(s@, dot as int));
    }
    if raw > MAX_RAW {
        proof {
            lemma_parse_is_at(s@, dot as int);
        }
        return None;
    }
    proof {
        lemma_parse_is_at(s@, dot as int);
    }
    Some(Dec { raw })
}

proof fn lemma_frac_units_nonneg(f: Seq<char>)
    requires
        all_digits(f),
    ensures
        frac_units(f) >= 0,
{
    if f.len() >= 9 {
        assert(all_digits(f.take(9)));
        lemma_digits_val_nonneg(f.take(9));
    } else {
        let padded = f + zeros((9 - f.len()) as nat);
        assert(all_digits(padded));
        lemma_digits_val_nonneg(padded);
    }
}

proof fn lemma_pow10_le_nine(m: nat)
    requires
        m <= 9,
    ensures
        pow10(m) <= UNIT as int,
{
    reveal_with_fuel(pow10, 11);
    if m == 0 {
    } else if m == 1 {
    } else if m == 2 {
    } else if m == 3 {
    } else if m == 4 {
    } else if m == 5 {
    } else if m == 6 {
    } else if m == 7 {
    } else if m == 8 {
    } else {
        assert(m == 9);
    }
}

/// A parsed value is never negative and never beyond the
/// representable range.
pub proof fn lemma_parse_dec_bounds(s: Seq<char>)
    ensures
        spec_parse_dec(s) matches Some(v) ==> 0 <= v <= MAX_RAW as int,
{
    if spec_parse_dec(s) is Some {
        let k = choose|k: int| valid_split(s, k);
        assert(valid_split(s, k));
        lemma_digits_val_nonneg(s.take(k));
        lemma_frac_units_nonneg(spec_frac_digits(s, k));
        assert(digits_val(s.take(k)) * UNIT >= 0) by (nonlinear_arith)
            requires
                digits_val(s.take(k)) >= 0,
        ;
    }
}

/// Separators sit only after the first digit, as the upstream number
/// grammar has it.
pub open spec fn spec_seps_ok(s: Seq<char>) -> bool {
    forall|i: int|
        0 <= i < s.len() && (#[trigger] s[i]) == '_' ==> exists|j: int|
            0 <= j < i && is_dec_digit(#[trigger] s[j])
}

/// `s` with every separator removed.
pub open spec fn spec_strip_seps(s: Seq<char>) -> Seq<char>
    decreases s.len(),
{
    if s.len() == 0 {
        Seq::<char>::empty()
    } else {
        let rest = spec_strip_seps(s.drop_last());
        if s.last() == '_' {
            rest
        } else {
            rest.push(s.last())
        }
    }
}

/// An unsigned numeral with separators: the separators sit after the
/// first digit, and what remains once they are removed is a plain
/// numeral.
pub open spec fn spec_parse_unsigned(s: Seq<char>) -> Option<int> {
    if spec_seps_ok(s) {
        spec_parse_dec(spec_strip_seps(s))
    } else {
        None
    }
}

/// The full number grammar: an optional leading sign, then an
/// unsigned numeral with separators.
pub open spec fn spec_parse_decimal(s: Seq<char>) -> Option<int> {
    if s.len() > 0 && s[0] == '-' {
        match spec_parse_unsigned(s.drop_first()) {
            Some(v) => Some(-v),
            None => None,
        }
    } else if s.len() > 0 && s[0] == '+' {
        spec_parse_unsigned(s.drop_first())
    } else {
        spec_parse_unsigned(s)
    }
}

/// A parsed value's magnitude never exceeds the representable range.
pub proof fn lemma_parse_decimal_bounds(s: Seq<char>)
    ensures
        spec_parse_decimal(s) matches Some(v) ==> -(MAX_RAW as int) <= v <= MAX_RAW as int,
{
    lemma_parse_dec_bounds(spec_strip_seps(s));
    if s.len() > 0 && (s[0] == '-' || s[0] == '+') {
        lemma_parse_dec_bounds(spec_strip_seps(s.drop_first()));
    }
}

/// Copy `s` with its separators removed, refusing a separator that
/// stands before the first digit.
fn strip_separators(s: &str) -> (r: Option<String>)
    ensures
        match r {
            Some(t) => spec_seps_ok(s@) && t@ == spec_strip_seps(s@),
            None => !spec_seps_ok(s@),
        },
{
    let n = s.unicode_len();
    let mut out = String::new();
    let mut seen_digit = false;
    let mut i: usize = 0;
    proof {
        assert(s@.take(0) =~= Seq::<char>::empty());
    }
    while i < n
        invariant
            i <= n,
            n == s@.len(),
            seen_digit == (exists|j: int| 0 <= j < i && is_dec_digit(#[trigger] s@[j])),
            out@ == spec_strip_seps(s@.take(i as int)),
            forall|k: int|
                0 <= k < i && (#[trigger] s@[k]) == '_' ==> exists|j: int|
                    0 <= j < k && is_dec_digit(#[trigger] s@[j]),
        decreases n - i,
    {
        let c = s.get_char(i);
        proof {
            assert(s@.take(i as int + 1).drop_last() =~= s@.take(i as int));
            assert(s@.take(i as int + 1).last() == s@[i as int]);
        }
        if c == '_' {
            if !seen_digit {
                proof {
                    assert(s@[i as int] == '_');
                    assert(!spec_seps_ok(s@));
                }
                return None;
            }
        } else {
            let piece = s.substring_char(i, i + 1);
            out.append(piece);
            proof {
                assert(piece@ =~= seq![s@[i as int]]);
                assert(out@ =~= spec_strip_seps(s@.take(i as int)).push(s@[i as int]));
            }
            if ('0' as u32) <= (c as u32) && (c as u32) <= ('9' as u32) {
                seen_digit = true;
            }
        }
        proof {
            if is_dec_digit(s@[i as int]) {
                assert(exists|j: int| 0 <= j < i + 1 && is_dec_digit(#[trigger] s@[j]));
            } else {
                assert forall|j: int| 0 <= j < i + 1 && is_dec_digit(#[trigger] s@[j]) implies (
                exists|j2: int| 0 <= j2 < i && is_dec_digit(#[trigger] s@[j2])) by {
                    assert(j != i);
                }
            }
        }
        i = i + 1;
    }
    proof {
        assert(s@.take(n as int) =~= s@);
    }
    Some(out)
}

/// Parse a decimal numeral as the upstream feed's numbers are
/// written: an optional leading `+` or `-`, digits with `_`
/// separators after the first digit, at most one point (`"1850"`,
/// `"-1_800.50"`, `".5"`), and fractional digits beyond the ninth
/// place truncated.  Anything else — a misplaced sign or separator,
/// an exponent, a second point, no digit at all, or a magnitude
/// beyond the representable range — parses to nothing.
pub fn parse_dec(s: &str) -> (r: Option<Dec>)
    ensures
        match r {
            Some(d) => spec_parse_decimal(s@) == Some(d.spec_raw()) && d.wf(),
            None => spec_parse_decimal(s@) is None,
        },
{
    let n = s.unicode_len();
    let mut negative = false;
    let mut start: usize = 0;
    if n > 0 {
        let c = s.get_char(0);
        if c == '-' {
            negative = true;
            start = 1;
        } else if c == '+' {
            start = 1;
        }
    }
    let body = s.substring_char(start, n);
    proof {
        if start == 1 {
            assert(body@ =~= s@.drop_first());
        } else {
            assert(body@ =~= s@);
        }
    }
    let stripped = match strip_separators(body) {
        Some(t) => t,
        None => {
            return None;
        },
    };
    match parse_numeral(stripped.as_str()) {
        Some(d) => if negative {
            let raw = d.raw();
            Some(Dec { raw: -raw })
        } else {
            Some(d)
        },
        None => None,
    }
}

/// When `k` validly splits `s`, parsing is decided by the value at `k`.
proof fn lemma_parse_is_at(s: Seq<char>, k: int)
    requires
        valid_split(s, k),
    ensures
        spec_parse_dec(s) == if dec_raw_at(s, k) <= MAX_RAW as int {
            Some(dec_raw_at(s, k))
        } else {
            None::<int>
        },
{
    let kc = choose|kk: int| valid_split(s, kk);
    lemma_valid_split_unique(s, kc, k);
}

} // verus!
