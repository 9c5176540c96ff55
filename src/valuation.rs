//! The daily value series of an instrument: linear accrual within a year on the value the
//! year started with, compounding from one year to the next.
//!
//! Values are whole cents; annual rates are whole units of 1/100000 (five fractional digits).
use crate::calendar::{anniversary, anniversary_of, day_number, days_between, Date, MAX_YEAR};
use vstd::prelude::*;

verus! {

/// Rate units in a rate of 1 (100%).
pub const RATE_SCALE: i64 = 100000;

/// The value every instrument starts from: 100.00.
pub const BASE_VALUE: i64 = 10000;

/// `n / d` rounded to the nearest integer, halves away from zero (`d > 0`).
pub open spec fn round_half_away(n: int, d: int) -> int {
    if n >= 0 {
        (2 * n + d) / (2 * d)
    } else {
        -((-2 * n + d) / (2 * d))
    }
}

/// The value on day `day` (1-based) of a year of `len` days that began at `anchor` with `rate`:
/// `round_2dp(anchor + anchor * (day / len) * rate)`.
pub open spec fn accrue(anchor: int, rate: int, len: int, day: int) -> int {
    round_half_away(anchor * (len * RATE_SCALE + day * rate), len * RATE_SCALE)
}

/// The values of the days of one year.
pub open spec fn year_values(anchor: int, rate: int, len: int) -> Seq<int> {
    Seq::new(len as nat, |k: int| accrue(anchor, rate, len, k + 1))
}

/// The series over the years of `rates`, year `i` having `lens[i]` days; each year starts
/// from the last value of the one before.
pub open spec fn series(base: int, rates: Seq<int>, lens: Seq<int>) -> Seq<int>
    decreases rates.len(),
{
    if rates.len() == 0 {
        seq![base]
    } else {
        let prev = series(base, rates.drop_last(), lens);
        prev + year_values(prev.last(), rates.last(), lens[rates.len() - 1])
    }
}

/// The days in year `i` after `start`: from its `i`-th to its `i + 1`-th anniversary.
pub open spec fn year_len(start: Date, i: int) -> int {
    day_number(anniversary(start, i + 1)->0) - day_number(anniversary(start, i)->0)
}

pub open spec fn year_lens(start: Date, n: nat) -> Seq<int> {
    Seq::new(n, |i: int| year_len(start, i))
}

/// The anniversaries `0..=n` of `start` all fall within the range of years.
pub open spec fn anniversaries_exist(start: Date, n: nat) -> bool {
    forall|k: int| 0 <= k <= n ==> (#[trigger] anniversary(start, k)) is Some
}

pub open spec fn rate_ints(rates: Seq<i32>) -> Seq<int> {
    rates.map_values(|r: i32| r as int)
}

pub open spec fn value_ints(values: Seq<i64>) -> Seq<int> {
    values.map_values(|v: i64| v as int)
}

/// Appends the values of the days of one year; false, with `values` left in some state,
/// where one of them does not fit.
fn push_year(values: &mut Vec<i64>, anchor: i64, rate: i32, len: i64) -> (ok: bool)
    requires
        365 <= len <= 366,
    ensures
        ok ==> value_ints(final(values)@) == value_ints(old(values)@) + year_values(
            anchor as int,
            rate as int,
            len as int,
        ),
        !ok ==> !fits_i64(year_values(anchor as int, rate as int, len as int)),
{
    let ghost prefix = value_ints(values@);
    let ghost yv = year_values(anchor as int, rate as int, len as int);
    let mut day: i64 = 1;
    while day <= len
        invariant
            365 <= len <= 366,
            1 <= day <= len + 1,
            yv == year_values(anchor as int, rate as int, len as int),
            value_ints(values@) == prefix + yv.subrange(0, day - 1),
        decreases len + 1 - day,
    {
        assert(-0x100_0000_0000 < len * 100000 + day * rate < 0x100_0000_0000) by (nonlinear_arith)
            requires
                365 <= len <= 366,
                1 <= day <= 366,
                -0x8000_0000 <= rate < 0x8000_0000,
        ;
        let factor: i128 = len as i128 * 100000 + day as i128 * rate as i128;
        assert(-0x100_0000_0000 < factor < 0x100_0000_0000);
        assert(-0x1_0000_0000_0000_0000_0000_0000_0000 < anchor * factor
            < 0x1_0000_0000_0000_0000_0000_0000_0000) by (nonlinear_arith)
            requires
                -0x100_0000_0000 < factor < 0x100_0000_0000,
                -0x8000_0000_0000_0000 <= anchor < 0x8000_0000_0000_0000,
        ;
        let num: i128 = anchor as i128 * factor;
        let v = round_half_away_exec(num, len as i128 * 100000);
        assert(v == yv[day - 1]);
        if v < i64::MIN as i128 || v > i64::MAX as i128 {
            return false;
        }
        let ghost before = values@;
        values.push(v as i64);
        assert(values@ == before.push(v as i64));
        assert(value_ints(values@) =~= value_ints(before).push(v as int));
        assert(yv.subrange(0, day as int) =~= yv.subrange(0, day - 1).push(v as int));
        assert(value_ints(values@) =~= prefix + yv.subrange(0, day as int));
        day = day + 1;
    }
    assert(yv.subrange(0, len as int) =~= yv);
    true
}

/// The daily values from `start` on, one year per rate.
pub open spec fn daily_values(base: int, rates: Seq<int>, start: Date) -> Seq<int> {
    series(base, rates, year_lens(start, rates.len()))
}

pub open spec fn fits_i64(s: Seq<int>) -> bool {
    forall|i: int| 0 <= i < s.len() ==> i64::MIN <= #[trigger] s[i] <= i64::MAX
}

/// The series can be computed: every anniversary is within range and every value fits.
pub open spec fn generable(base: int, rates: Seq<int>, start: Date) -> bool {
    anniversaries_exist(start, rates.len()) && fits_i64(daily_values(base, rates, start))
}

/// A series over fewer years is a prefix of the one over more.
pub proof fn lemma_series_prefix(base: int, rates: Seq<int>, lens: Seq<int>, j: int)
    requires
        0 <= j <= rates.len(),
    ensures
        series(base, rates.subrange(0, j), lens).len() <= series(base, rates, lens).len(),
        series(base, rates.subrange(0, j), lens) == series(base, rates, lens).subrange(
            0,
            series(base, rates.subrange(0, j), lens).len() as int,
        ),
    decreases rates.len(),
{
    if j == rates.len() {
        assert(rates.subrange(0, j) =~= rates);
        assert(series(base, rates, lens) =~= series(base, rates, lens).subrange(
            0,
            series(base, rates, lens).len() as int,
        ));
    } else {
        let shorter = rates.drop_last();
        assert(shorter.subrange(0, j) =~= rates.subrange(0, j));
        lemma_series_prefix(base, shorter, lens, j);
        let p = series(base, rates.subrange(0, j), lens);
        let q = series(base, shorter, lens);
        let r = series(base, rates, lens);
        assert(r == q + year_values(q.last(), rates.last(), lens[rates.len() - 1]));
        assert(p =~= r.subrange(0, p.len() as int));
    }
}

fn round_half_away_exec(n: i128, d: i128) -> (r: i128)
    requires
        0 < d < 0x1_0000_0000_0000,
        -0x1_0000_0000_0000_0000_0000_0000_0000 < n < 0x1_0000_0000_0000_0000_0000_0000_0000,
    ensures
        r == round_half_away(n as int, d as int),
{
    if n >= 0 {
        (2 * n + d) / (2 * d)
    } else {
        0 - (((0 - 2 * n) + d) / (2 * d))
    }
}

/// The daily values from `start` on: `base`, then one value per day of each year, year `i`
/// running from the `i`-th to the `i + 1`-th anniversary of `start` with rate `rates[i]`.
/// A 29 February start has its later years start on 1 March where 29 February does not exist.
/// Nothing where an anniversary is out of range or a value does not fit.
pub fn generate(base: i64, rates: &Vec<i32>, start: Date) -> (r: Option<Vec<i64>>)
    requires
        start.wf(),
    ensures
        r is Some <==> generable(base as int, rate_ints(rates@), start),
        r matches Some(v) ==> value_ints(v@) == daily_values(base as int, rate_ints(rates@), start),
        r matches Some(v) ==> v.len() == 1 + total_days(start, rates.len() as nat) && v[0] == base,
{
    let ghost rs = rate_ints(rates@);
    let ghost lens = year_lens(start, rates.len() as nat);
    let mut values: Vec<i64> = Vec::new();
    values.push(base);
    assert(value_ints(values@) =~= series(base as int, rs.subrange(0, 0), lens));
    let mut i: usize = 0;
    while i < rates.len()
        invariant
            start.wf(),
            i <= rates.len(),
            rs == rate_ints(rates@),
            lens == year_lens(start, rates.len() as nat),
            anniversaries_exist(start, i as nat),
            values.len() >= 1,
            rs.len() == rates.len(),
            value_ints(values@) == series(base as int, rs.subrange(0, i as int), lens),
        decreases rates.len() - i,
    {
        assert(anniversary(start, i as int) is Some);
        let y: i128 = start.year as i128 + i as i128;
        if y + 1 > MAX_YEAR as i128 {
            assert(anniversary(start, i + 1) is None);
            return None;
        }
        let year_start = match anniversary_of(start, y as i32) {
            Some(d) => d,
            None => {
                return None;
            },
        };
        let year_end = match anniversary_of(start, (y + 1) as i32) {
            Some(d) => d,
            None => {
                return None;
            },
        };
        assert(anniversary(start, i as int) == Some(year_start));
        assert(anniversary(start, i + 1) == Some(year_end));
        assert(anniversaries_exist(start, (i + 1) as nat)) by {
            assert forall|k: int| 0 <= k <= i + 1 implies (#[trigger] anniversary(start, k)) is Some by {
                if k <= i {
                    assert(anniversary(start, k) is Some);
                }
            }
        }
        let len = days_between(year_start, year_end);
        proof {
            crate::calendar::lemma_anniversary_gap(start, i as int);
            assert(len == lens[i as int]);
        }
        let rate = rates[i];
        let anchor = values[values.len() - 1];
        let ghost prefix = value_ints(values@);
        let ghost yv = year_values(anchor as int, rate as int, len as int);
        proof {
            let shorter = rs.subrange(0, i + 1).drop_last();
            assert(shorter =~= rs.subrange(0, i as int));
            assert(rs.subrange(0, i + 1).last() == rate);
            assert(series(base as int, rs.subrange(0, i + 1), lens) == prefix + yv);
        }
        if !push_year(&mut values, anchor, rate, len) {
            proof {
                let k = choose|k: int| 0 <= k < yv.len() && !(i64::MIN <= #[trigger] yv[k] <= i64::MAX);
                let full = daily_values(base as int, rs, start);
                lemma_series_prefix(base as int, rs, lens, i + 1);
                assert((prefix + yv)[prefix.len() + k] == yv[k]);
                assert(full[prefix.len() + k] == yv[k]);
            }
            return None;
        }
        i = i + 1;
    }
    assert(rs.subrange(0, rates.len() as int) =~= rs);
    assert(fits_i64(daily_values(base as int, rs, start)));
    proof {
        lemma_daily_values_shape(base as int, rs, start);
        assert(values@.len() == value_ints(values@).len());
        assert(value_ints(values@)[0] == values@[0] as int);
    }
    Some(values)
}

/// The days in the first `n` years after `start`.
pub open spec fn total_days(start: Date, n: nat) -> int
    decreases n,
{
    if n == 0 {
        0
    } else {
        total_days(start, (n - 1) as nat) + year_len(start, n - 1)
    }
}

/// The years after `start` add up to the span from `start` to its `n`-th anniversary.
pub proof fn lemma_total_days(start: Date, n: nat)
    requires
        start.wf(),
        anniversaries_exist(start, n),
    ensures
        total_days(start, n) == day_number(anniversary(start, n as int)->0) - day_number(start),
    decreases n,
{
    assert(anniversary(start, 0) is Some);
    assert(anniversary(start, n as int) is Some);
    if n > 0 {
        assert(anniversaries_exist(start, (n - 1) as nat));
        lemma_total_days(start, (n - 1) as nat);
    }
}

/// More years hold more days.
pub proof fn lemma_total_days_grow(start: Date, n: nat, m: nat)
    requires
        start.wf(),
        n <= m,
        anniversaries_exist(start, m),
    ensures
        total_days(start, n) <= total_days(start, m),
        n < m ==> total_days(start, n) < total_days(start, m),
    decreases m - n,
{
    if n < m {
        assert(anniversary(start, m - 1) is Some);
        assert(anniversary(start, m as int) is Some);
        crate::calendar::lemma_anniversary_gap(start, m - 1);
        assert(anniversaries_exist(start, (m - 1) as nat));
        lemma_total_days_grow(start, n, (m - 1) as nat);
    }
}

proof fn lemma_series_shape(base: int, rates: Seq<int>, lens: Seq<int>)
    requires
        lens.len() >= rates.len(),
        forall|i: int| 0 <= i < lens.len() ==> lens[i] >= 0,
    ensures
        series(base, rates, lens)[0] == base,
        series(base, rates, lens).len() == 1 + lens_sum(lens, rates.len()),
        lens_sum(lens, rates.len()) >= 0,
    decreases rates.len(),
{
    if rates.len() > 0 {
        lemma_series_shape(base, rates.drop_last(), lens);
        let prev = series(base, rates.drop_last(), lens);
        let yv = year_values(prev.last(), rates.last(), lens[rates.len() - 1]);
        assert((prev + yv)[0] == prev[0]);
    }
}

pub open spec fn lens_sum(lens: Seq<int>, n: nat) -> int
    decreases n,
{
    if n == 0 {
        0
    } else {
        lens_sum(lens, (n - 1) as nat) + lens[n - 1]
    }
}

/// The series holds one value for the start and one for each day of each year, and its first
/// value is the base value.
pub proof fn lemma_daily_values_shape(base: int, rates: Seq<int>, start: Date)
    requires
        start.wf(),
        anniversaries_exist(start, rates.len()),
    ensures
        daily_values(base, rates, start).len() == 1 + total_days(start, rates.len()),
        daily_values(base, rates, start)[0] == base,
{
    let lens = year_lens(start, rates.len());
    assert forall|i: int| 0 <= i < lens.len() implies lens[i] >= 0 by {
        assert(anniversary(start, i) is Some);
        assert(anniversary(start, i + 1) is Some);
        crate::calendar::lemma_anniversary_gap(start, i);
    }
    lemma_series_shape(base, rates, lens);
    lemma_sum_matches(start, rates.len(), rates.len());
}

proof fn lemma_sum_matches(start: Date, n: nat, m: nat)
    requires
        n <= m,
    ensures
        lens_sum(year_lens(start, m), n) == total_days(start, n),
    decreases n,
{
    if n > 0 {
        lemma_sum_matches(start, (n - 1) as nat, m);
    }
}

/// Generation is deterministic: two results that both meet the contract of `generate` for the
/// same inputs are the same sequence.
pub proof fn lemma_generation_deterministic(
    base: i64,
    rates: Seq<i32>,
    start: Date,
    first: Seq<i64>,
    second: Seq<i64>,
)
    requires
        value_ints(first) == daily_values(base as int, rate_ints(rates), start),
        value_ints(second) == daily_values(base as int, rate_ints(rates), start),
    ensures
        first == second,
{
    assert(value_ints(first).len() == first.len());
    assert(value_ints(second).len() == second.len());
    assert forall|i: int| 0 <= i < first.len() implies first[i] == second[i] by {
        assert(value_ints(first)[i] == first[i] as int);
        assert(value_ints(second)[i] == second[i] as int);
    }
    assert(first =~= second);
}

/// Collects annual rates and produces the daily values that accrue on an initial value.
pub struct ValueGenerator {
    yearly_returns: Vec<i32>,
    initial_value: i64,
}

/// A dated value of an instrument, in cents.
#[derive(Clone, Copy, Debug, PartialEq, Eq)]
pub struct BondValue {
    pub date: Date,
    pub value: i64,
}

impl ValueGenerator {
    pub closed spec fn rates(&self) -> Seq<i32> {
        self.yearly_returns@
    }

    pub closed spec fn initial(&self) -> i64 {
        self.initial_value
    }

    /// A generator with no rates yet.
    pub fn new(initial_value: i64) -> (r: Self)
        ensures
            r.initial() == initial_value,
            r.rates() == Seq::<i32>::empty(),
    {
        ValueGenerator { yearly_returns: Vec::new(), initial_value }
    }

    /// Adds the rate of the next year.
    pub fn add_yearly_return(&mut self, return_rate: i32)
        ensures
            final(self).initial() == old(self).initial(),
            final(self).rates() == old(self).rates().push(return_rate),
    {
        self.yearly_returns.push(return_rate);
    }

    /// The daily values from `start_date` on, one year per rate added (see `generate`).
    pub fn calculate_daily_bond_values(&self, start_date: Date) -> (r: Option<Vec<i64>>)
        requires
            start_date.wf(),
        ensures
            r is Some <==> generable(self.initial() as int, rate_ints(self.rates()), start_date),
            r matches Some(v) ==> v.len() == 1 + total_days(start_date, self.rates().len()) && v[0]
                == self.initial(),
            r matches Some(v) ==> value_ints(v@) == daily_values(
                self.initial() as int,
                rate_ints(self.rates()),
                start_date,
            ),
    {
        generate(self.initial_value, &self.yearly_returns, start_date)
    }
}

} // verus!
