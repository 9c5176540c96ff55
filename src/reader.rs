//! Reading instrument definitions from the rows of a spreadsheet.
//!
//! A row belongs to a series when its first cell is text that starts with the series label.
//! Columns 3 and 4 hold the start and end of sale, columns `9..9 + tenor` the annual rates.
use crate::calendar::{
    anniversary, anniversary_of, day_number, days_between, lemma_before_last, Date, MAX_YEAR,
};
use crate::model::{AllBonds, Bond, BondId};
use crate::valuation::{
    anniversaries_exist, daily_values, generable, lemma_daily_values_shape, lemma_total_days,
    lemma_total_days_grow, total_days,
    rate_ints, round_half_away, value_ints, ValueGenerator, BASE_VALUE,
};
use rust_decimal::{Decimal, RoundingStrategy};
use vstd::prelude::*;

verus! {

/// The largest magnitude of a decimal mantissa (96 bits).
pub const MAX_MANTISSA: i128 = 0xFFFF_FFFF_FFFF_FFFF_FFFF_FFFF;

/// The largest decimal scale.
pub const MAX_SCALE: u32 = 28;

/// A cell of a spreadsheet, as far as extraction reads it.
#[derive(Debug)]
pub enum Cell {
    /// Text.
    Text(String),
    /// A floating-point number, held exactly as `mantissa / 10^scale`, with the date it
    /// denotes as a spreadsheet date, if any.
    Float { mantissa: i128, scale: u32, date: Option<Date> },
    /// Any other cell, with the date it denotes, if any.
    Other { date: Option<Date> },
}

/// Why extraction failed; `row` is the index of the row among all rows.
#[derive(Clone, Copy, Debug, PartialEq, Eq, Structural)]
pub enum ExtractError {
    /// The cell in `column` (3 or 4) holds no date.
    MissingDate { row: usize, column: usize },
    /// The buyout date, the start of sale plus the tenor, is past the last representable year.
    MissingBuyoutDate { row: usize },
    /// A rate does not fit in the range of rates.
    RateOutOfRange { row: usize },
    /// The sale window is not `start < end < buyout`.
    SaleWindow { row: usize },
    /// A daily value does not fit.
    Valuation { row: usize },
}

impl Cell {
    pub open spec fn wf(&self) -> bool {
        match self {
            Cell::Text(_) => true,
            Cell::Float { mantissa, scale, date } => {
                &&& *scale <= MAX_SCALE
                &&& -MAX_MANTISSA <= *mantissa <= MAX_MANTISSA
                &&& date matches Some(d) ==> d.wf()
            },
            Cell::Other { date } => date matches Some(d) ==> d.wf(),
        }
    }

    pub open spec fn date(&self) -> Option<Date> {
        match self {
            Cell::Text(_) => None,
            Cell::Float { date, .. } => *date,
            Cell::Other { date } => *date,
        }
    }
}

pub open spec fn pow10(n: nat) -> int
    decreases n,
{
    if n == 0 {
        1
    } else {
        10 * pow10((n - 1) as nat)
    }
}

/// `mantissa / 10^scale` in units of 1/100000, rounded half away from zero.
pub open spec fn rate_units(mantissa: int, scale: nat) -> int {
    if scale <= 5 {
        mantissa * pow10((5 - scale) as nat)
    } else {
        round_half_away(mantissa, pow10((scale - 5) as nat))
    }
}

/// The rate a cell holds: a floating-point number, rounded to five fractional digits.
pub open spec fn cell_rate(c: Cell) -> Option<int> {
    match c {
        Cell::Float { mantissa, scale, .. } => Some(rate_units(mantissa as int, scale as nat)),
        _ => None,
    }
}

pub open spec fn rows_wf(rows: Seq<Vec<Cell>>) -> bool {
    forall|r: int, c: int| 0 <= r < rows.len() && 0 <= c < rows[r].len() ==> (#[trigger] rows[r]@[c]).wf()
}

/// The row belongs to the series `label`.
pub open spec fn row_matches(row: Seq<Cell>, label: Seq<char>) -> bool {
    row.len() > 0 && (row[0] matches Cell::Text(s) && label.is_prefix_of(s@))
}

pub open spec fn row_id(row: Seq<Cell>) -> Seq<char> {
    match row[0] {
        Cell::Text(s) => s@,
        _ => Seq::empty(),
    }
}

pub open spec fn row_date(row: Seq<Cell>, column: int) -> Option<Date> {
    if column < row.len() {
        row[column].date()
    } else {
        None
    }
}

/// The rates of columns `lo..hi` in order, cells that hold no number left out.
pub open spec fn rates_in(row: Seq<Cell>, lo: int, hi: int) -> Seq<int>
    decreases hi - lo,
{
    if hi <= lo {
        Seq::empty()
    } else {
        let before = rates_in(row, lo, hi - 1);
        if hi - 1 < row.len() && cell_rate(row[hi - 1]) is Some {
            before.push(cell_rate(row[hi - 1])->0)
        } else {
            before
        }
    }
}

pub open spec fn row_rates(row: Seq<Cell>, tenor: int) -> Seq<int> {
    rates_in(row, 9, 9 + tenor)
}

pub open spec fn fits_rate(r: int) -> bool {
    i32::MIN <= r <= i32::MAX
}

/// What goes wrong with a row of the series, checked in this order, if anything does.
pub open spec fn row_error(row: Seq<Cell>, index: int, tenor: int) -> Option<ExtractError> {
    let start = row_date(row, 3);
    let end = row_date(row, 4);
    if start is None {
        Some(ExtractError::MissingDate { row: index as usize, column: 3 })
    } else if end is None {
        Some(ExtractError::MissingDate { row: index as usize, column: 4 })
    } else if anniversary(start->0, tenor) is None {
        Some(ExtractError::MissingBuyoutDate { row: index as usize })
    } else if exists|k: int| 0 <= k < row_rates(row, tenor).len() && !fits_rate(#[trigger] row_rates(row, tenor)[k]) {
        Some(ExtractError::RateOutOfRange { row: index as usize })
    } else if !(day_number(start->0) < day_number(end->0) < day_number(anniversary(start->0, tenor)->0)) {
        Some(ExtractError::SaleWindow { row: index as usize })
    } else if !generable(BASE_VALUE as int, row_rates(row, tenor), start->0) {
        Some(ExtractError::Valuation { row: index as usize })
    } else {
        None
    }
}

/// `b` is the instrument that a valid row of the series defines.
pub open spec fn built_from(row: Seq<Cell>, tenor: int, b: Bond) -> bool {
    let start = row_date(row, 3)->0;
    &&& b.id@ == row_id(row)
    &&& b.initial_date == start
    &&& b.sale_end == row_date(row, 4)->0
    &&& b.buyout_date == anniversary(start, tenor)->0
    &&& value_ints(b.values@) == daily_values(BASE_VALUE as int, row_rates(row, tenor), start)
}

/// Relies on rust_decimal's `Decimal::from_i128_with_scale`, `Decimal::round_dp_with_strategy`
/// with `MidpointAwayFromZero`, `Decimal::mantissa` and `Decimal::scale`: `mantissa / 10^scale`
/// rounded to five fractional digits, halves away from zero; a value with at most five is
/// returned as it is.
#[verifier::external_body]
fn round_to_five_places(mantissa: i128, scale: u32) -> (r: (i128, u32))
    requires
        scale <= MAX_SCALE,
        -MAX_MANTISSA <= mantissa <= MAX_MANTISSA,
    ensures
        scale <= 5 ==> r == (mantissa, scale),
        scale > 5 ==> r.1 == 5 && r.0 == round_half_away(mantissa as int, pow10((scale - 5) as nat)),
{
    let d = Decimal::from_i128_with_scale(mantissa, scale);
    let rounded = d.round_dp_with_strategy(5, RoundingStrategy::MidpointAwayFromZero);
    (rounded.mantissa(), rounded.scale())
}

proof fn lemma_pow10_bounds(n: nat)
    ensures
        1 <= pow10(n),
        n <= 5 ==> pow10(n) <= 100000,
    decreases n,
{
    if n > 0 {
        lemma_pow10_bounds((n - 1) as nat);
    }
    if n <= 5 {
        reveal_with_fuel(pow10, 6);
    }
}

/// The rate of a cell, in units of 1/100000.
fn cell_rate_units(c: &Cell) -> (r: Option<i128>)
    requires
        c.wf(),
    ensures
        r matches Some(u) ==> cell_rate(*c) == Some(u as int),
        r is None ==> cell_rate(*c) is None,
{
    match c {
        Cell::Float { mantissa, scale, .. } => {
            let (m, s) = round_to_five_places(*mantissa, *scale);
            if *scale > 5 {
                return Some(m);
            }
            let mut factor: i128 = 1;
            let mut k: u32 = s;
            proof {
                lemma_pow10_bounds((5 - s) as nat);
            }
            while k < 5
                invariant
                    s <= k <= 5,
                    factor == pow10((k - s) as nat),
                    1 <= factor <= 100000,
                    pow10((5 - s) as nat) <= 100000,
                decreases 5 - k,
            {
                proof {
                    lemma_pow10_bounds((5 - s) as nat);
                    lemma_pow10_monotone((k + 1 - s) as nat, (5 - s) as nat);
                }
                factor = factor * 10;
                k = k + 1;
            }
            assert(-MAX_MANTISSA * 100000 <= m * factor <= MAX_MANTISSA * 100000) by (nonlinear_arith)
                requires
                    -MAX_MANTISSA <= m <= MAX_MANTISSA,
                    1 <= factor <= 100000,
            ;
            Some(m * factor)
        },
        _ => None,
    }
}

proof fn lemma_pow10_monotone(a: nat, b: nat)
    requires
        a <= b,
    ensures
        pow10(a) <= pow10(b),
    decreases b,
{
    lemma_pow10_bounds(b);
    if a < b {
        lemma_pow10_monotone(a, (b - 1) as nat);
    }
}

proof fn lemma_rates_prefix(row: Seq<Cell>, lo: int, mid: int, hi: int)
    requires
        lo <= mid <= hi,
    ensures
        rates_in(row, lo, mid).len() <= rates_in(row, lo, hi).len(),
        rates_in(row, lo, mid) == rates_in(row, lo, hi).subrange(0, rates_in(row, lo, mid).len() as int),
    decreases hi - mid,
{
    if mid == hi {
        assert(rates_in(row, lo, hi) =~= rates_in(row, lo, hi).subrange(0, rates_in(row, lo, hi).len() as int));
    } else {
        lemma_rates_prefix(row, lo, mid, hi - 1);
        assert(rates_in(row, lo, mid) =~= rates_in(row, lo, hi).subrange(0, rates_in(row, lo, mid).len() as int));
    }
}

/// Whether `p` is a prefix of `s`.
fn has_prefix(s: &str, p: &str) -> (r: bool)
    ensures
        r == p@.is_prefix_of(s@),
{
    let n = p.unicode_len();
    if n > s.unicode_len() {
        return false;
    }
    let mut i: usize = 0;
    while i < n
        invariant
            n == p@.len(),
            n <= s@.len(),
            i <= n,
            p@.subrange(0, i as int) == s@.subrange(0, i as int),
        decreases n - i,
    {
        if p.get_char(i) != s.get_char(i) {
            return false;
        }
        assert(p@.subrange(0, i + 1) =~= p@.subrange(0, i as int).push(p@[i as int]));
        assert(s@.subrange(0, i + 1) =~= s@.subrange(0, i as int).push(s@[i as int]));
        i = i + 1;
    }
    assert(p@ =~= p@.subrange(0, n as int));
    true
}

/// The date a cell of the row denotes, if the row has that cell.
fn date_in(row: &Vec<Cell>, column: usize) -> (r: Option<Date>)
    ensures
        r == row_date(row@, column as int),
{
    if column < row.len() {
        match &row[column] {
            Cell::Text(_) => None,
            Cell::Float { date, .. } => *date,
            Cell::Other { date } => *date,
        }
    } else {
        None
    }
}

/// The instrument that a row of the series defines, or what is wrong with the row.
fn parse_row(row: &Vec<Cell>, id: &String, index: usize, tenor: u8) -> (r: Result<Bond, ExtractError>)
    requires
        row.len() > 0,
        row_id(row@) == id@,
        forall|c: int| 0 <= c < row.len() ==> (#[trigger] row@[c]).wf(),
    ensures
        r matches Ok(b) ==> row_error(row@, index as int, tenor as int) is None && built_from(row@, tenor as int, b),
        r matches Err(e) ==> row_error(row@, index as int, tenor as int) == Some(e),
{
    let start = match date_in(row, 3) {
        Some(d) => d,
        None => {
            return Err(ExtractError::MissingDate { row: index, column: 3 });
        },
    };
    let end = match date_in(row, 4) {
        Some(d) => d,
        None => {
            return Err(ExtractError::MissingDate { row: index, column: 4 });
        },
    };
    assert(start.wf()) by {
        assert(row@[3].wf());
    }
    assert(end.wf()) by {
        assert(row@[4].wf());
    }
    let target: i64 = start.year as i64 + tenor as i64;
    if target > MAX_YEAR as i64 {
        return Err(ExtractError::MissingBuyoutDate { row: index });
    }
    let buyout = match anniversary_of(start, target as i32) {
        Some(d) => d,
        None => {
            return Err(ExtractError::MissingBuyoutDate { row: index });
        },
    };
    let ghost all_rates = row_rates(row@, tenor as int);
    let mut generator = ValueGenerator::new(BASE_VALUE);
    let last: usize = 9 + tenor as usize;
    let mut column: usize = 9;
    assert(rate_ints(generator.rates()) =~= rates_in(row@, 9, 9));
    while column < last
        invariant
            9 <= column <= last,
            last == 9 + tenor,
            all_rates == row_rates(row@, tenor as int),
            row_date(row@, 3) == Some(start),
            row_date(row@, 4) == Some(end),
            anniversary(start, tenor as int) == Some(buyout),
            forall|c: int| 0 <= c < row.len() ==> (#[trigger] row@[c]).wf(),
            generator.initial() == BASE_VALUE,
            rate_ints(generator.rates()) == rates_in(row@, 9, column as int),
        decreases last - column,
    {
        if column < row.len() {
            match cell_rate_units(&row[column]) {
                Some(u) => {
                    if u < i32::MIN as i128 || u > i32::MAX as i128 {
                        proof {
                            let before = rates_in(row@, 9, column as int);
                            lemma_rates_prefix(row@, 9, column + 1, last as int);
                            assert(rates_in(row@, 9, column + 1) == before.push(u as int));
                            let upto = rates_in(row@, 9, column + 1);
                            assert(upto == all_rates.subrange(0, upto.len() as int));
                            assert(upto[before.len() as int] == u);
                            assert(all_rates.subrange(0, upto.len() as int)[before.len() as int] == all_rates[before.len() as int]);
                            assert(all_rates[before.len() as int] == u);
                            assert(!fits_rate(all_rates[before.len() as int]));
                        }
                        return Err(ExtractError::RateOutOfRange { row: index });
                    }
                    generator.add_yearly_return(u as i32);
                    assert(rate_ints(generator.rates()) =~= rates_in(row@, 9, column + 1));
                },
                None => {
                    assert(rate_ints(generator.rates()) =~= rates_in(row@, 9, column + 1));
                },
            }
        } else {
            assert(rate_ints(generator.rates()) =~= rates_in(row@, 9, column + 1));
        }
        column = column + 1;
    }
    assert forall|k: int| 0 <= k < all_rates.len() implies fits_rate(#[trigger] all_rates[k]) by {
        assert(all_rates[k] == generator.rates()[k] as int);
    }
    if days_between(start, end) <= 0 || days_between(end, buyout) <= 0 {
        return Err(ExtractError::SaleWindow { row: index });
    }
    let values = match generator.calculate_daily_bond_values(start) {
        Some(v) => v,
        None => {
            return Err(ExtractError::Valuation { row: index });
        },
    };
    Ok(Bond { id: BondId::new(id.as_str()), initial_date: start, sale_end: end, buyout_date: buyout, values })
}

/// Row `r` belongs to the series and is wrong.
pub open spec fn failing(rows: Seq<Vec<Cell>>, label: Seq<char>, tenor: int, r: int) -> bool {
    row_matches(rows[r]@, label) && row_error(rows[r]@, r, tenor) is Some
}

/// An instrument that a valid row defines is well formed.
proof fn lemma_built_wf(row: Seq<Cell>, index: int, tenor: int, b: Bond)
    requires
        forall|c: int| 0 <= c < row.len() ==> (#[trigger] row[c]).wf(),
        row_error(row, index, tenor) is None,
        built_from(row, tenor, b),
    ensures
        b.wf(),
{
    let start = row_date(row, 3)->0;
    let rates = row_rates(row, tenor);
    assert(row[3].wf());
    assert(row[4].wf());
    assert(anniversaries_exist(start, rates.len()));
    lemma_daily_values_shape(BASE_VALUE as int, rates, start);
    lemma_total_days(start, rates.len());
    assert(anniversary(start, rates.len() as int) is Some);
    lemma_before_last(anniversary(start, rates.len() as int)->0);
    assert(b.values@.len() == value_ints(b.values@).len());
}

/// Whether each of the `tenor` rate columns of the row holds a number.
pub open spec fn rates_complete(row: Seq<Cell>, tenor: int) -> bool {
    forall|c: int| 9 <= c < 9 + tenor ==> c < row.len() && (#[trigger] cell_rate(row[c])) is Some
}

proof fn lemma_rates_count(row: Seq<Cell>, lo: int, hi: int)
    requires
        lo <= hi,
    ensures
        rates_in(row, lo, hi).len() <= hi - lo,
        rates_in(row, lo, hi).len() == hi - lo <==> forall|c: int|
            lo <= c < hi ==> c < row.len() && (#[trigger] cell_rate(row[c])) is Some,
    decreases hi - lo,
{
    if lo < hi {
        lemma_rates_count(row, lo, hi - 1);
    }
}

/// An instrument that a valid row defines holds one value for its start and one for each day of
/// the years the row gives rates for. That is at most one more than the days from its start to its
/// buyout date, and exactly that where each of the tenor's rate columns holds a number.
pub proof fn lemma_bond_length(row: Seq<Cell>, index: int, tenor: int, b: Bond)
    requires
        forall|c: int| 0 <= c < row.len() ==> (#[trigger] row[c]).wf(),
        0 <= tenor,
        row_error(row, index, tenor) is None,
        built_from(row, tenor, b),
    ensures
        b.values.len() == 1 + total_days(b.initial_date, row_rates(row, tenor).len()),
        b.values.len() <= 1 + day_number(b.buyout_date) - day_number(b.initial_date),
        b.values.len() == 1 + day_number(b.buyout_date) - day_number(b.initial_date) <==> rates_complete(row, tenor),
{
    let start = b.initial_date;
    let rates = row_rates(row, tenor);
    assert(row[3].wf());
    lemma_rates_count(row, 9, 9 + tenor);
    assert(anniversaries_exist(start, tenor as nat)) by {
        assert(anniversary(start, tenor) is Some);
        assert forall|k: int| 0 <= k <= tenor implies (#[trigger] anniversary(start, k)) is Some by {}
    }
    lemma_daily_values_shape(BASE_VALUE as int, rates, start);
    assert(b.values@.len() == value_ints(b.values@).len());
    lemma_total_days(start, tenor as nat);
    lemma_total_days_grow(start, rates.len(), tenor as nat);
}

/// `e` is the error of the first row of the series that is wrong.
pub open spec fn first_error(rows: Seq<Vec<Cell>>, label: Seq<char>, tenor: int, e: ExtractError) -> bool {
    exists|k: int|
        0 <= k < rows.len() && #[trigger] failing(rows, label, tenor, k) && row_error(rows[k]@, k, tenor) == Some(e)
            && forall|q: int| 0 <= q < k ==> !failing(rows, label, tenor, q)
}

/// Some row of the series is wrong.
pub open spec fn extraction_fails(rows: Seq<Vec<Cell>>, label: Seq<char>, tenor: int) -> bool {
    exists|k: int| 0 <= k < rows.len() && #[trigger] failing(rows, label, tenor, k)
}

/// Row `r`, among the first `n`, defines `b`, and no later one of them has its identifier.
pub open spec fn defines(rows: Seq<Vec<Cell>>, label: Seq<char>, tenor: int, r: int, b: Bond, n: int) -> bool {
    &&& 0 <= r < n
    &&& row_matches(rows[r]@, label)
    &&& built_from(rows[r]@, tenor, b)
    &&& forall|q: int| r < q < n && #[trigger] row_matches(rows[q]@, label) ==> row_id(rows[q]@) != b.id@
}

/// Some row among the first `n` defines `b`, and no later one of them has its identifier.
pub open spec fn defined(rows: Seq<Vec<Cell>>, label: Seq<char>, tenor: int, b: Bond, n: int) -> bool {
    exists|r: int| #[trigger] defines(rows, label, tenor, r, b, n)
}

pub open spec fn unique_ids(bonds: Seq<Bond>) -> bool {
    forall|i: int, j: int| 0 <= i < bonds.len() && 0 <= j < bonds.len() && i != j ==> bonds[i].id@ != bonds[j].id@
}

/// `bonds` are the instruments of the series among the first `n` rows: one per identifier,
/// defined by the last row with that identifier.
pub open spec fn extracted(rows: Seq<Vec<Cell>>, label: Seq<char>, tenor: int, bonds: Seq<Bond>, n: int) -> bool {
    &&& unique_ids(bonds)
    &&& forall|i: int| 0 <= i < bonds.len() ==> #[trigger] defined(rows, label, tenor, bonds[i], n)
    &&& forall|r: int| 0 <= r < n && #[trigger] row_matches(rows[r]@, label) ==> exists|i: int| 0 <= i < bonds.len() && bonds[i].id@ == row_id(rows[r]@)
}

proof fn lemma_extend_skip(rows: Seq<Vec<Cell>>, label: Seq<char>, tenor: int, bonds: Seq<Bond>, n: int)
    requires
        0 <= n < rows.len(),
        extracted(rows, label, tenor, bonds, n),
        !row_matches(rows[n]@, label),
    ensures
        extracted(rows, label, tenor, bonds, n + 1),
{
    assert forall|i: int| 0 <= i < bonds.len() implies #[trigger] defined(rows, label, tenor, bonds[i], n + 1) by {
        assert(defined(rows, label, tenor, bonds[i], n));
        let r = choose|r: int| #[trigger] defines(rows, label, tenor, r, bonds[i], n);
        assert(defines(rows, label, tenor, r, bonds[i], n + 1));
    }
}

proof fn lemma_extend_with(
    rows: Seq<Vec<Cell>>,
    label: Seq<char>,
    tenor: int,
    old_bonds: Seq<Bond>,
    bonds: Seq<Bond>,
    b: Bond,
    j: int,
    n: int,
)
    requires
        0 <= n < rows.len(),
        extracted(rows, label, tenor, old_bonds, n),
        row_matches(rows[n]@, label),
        built_from(rows[n]@, tenor, b),
        unique_ids(bonds),
        0 <= j < bonds.len(),
        j <= old_bonds.len(),
        bonds[j] == b,
        j < old_bonds.len() ==> old_bonds[j].id@ == b.id@ && bonds == old_bonds.update(j, b),
        j == old_bonds.len() ==> bonds == old_bonds.push(b),
    ensures
        extracted(rows, label, tenor, bonds, n + 1),
{
    assert forall|i: int| 0 <= i < bonds.len() implies #[trigger] defined(rows, label, tenor, bonds[i], n + 1) by {
        if i == j {
            assert(defines(rows, label, tenor, n, bonds[i], n + 1));
        } else {
            assert(bonds[i] == old_bonds[i]);
            assert(defined(rows, label, tenor, old_bonds[i], n));
            let r = choose|r: int| #[trigger] defines(rows, label, tenor, r, old_bonds[i], n);
            assert(bonds[i].id@ != bonds[j].id@);
            assert(defines(rows, label, tenor, r, bonds[i], n + 1));
        }
    }
    assert forall|r: int| 0 <= r < n + 1 && #[trigger] row_matches(rows[r]@, label) implies exists|i: int| 0 <= i < bonds.len() && bonds[i].id@ == row_id(rows[r]@) by {
        if r == n {
            assert(bonds[j].id@ == row_id(rows[r]@));
        } else {
            let i = choose|i: int| 0 <= i < old_bonds.len() && old_bonds[i].id@ == row_id(rows[r]@);
            assert(bonds[i].id@ == row_id(rows[r]@));
        }
    }
}

/// Puts `b` in place of the instrument with its identifier, or adds it where there is none.
fn upsert(bonds: &mut Vec<Bond>, b: Bond) -> (j: usize)
    requires
        unique_ids(old(bonds)@),
    ensures
        unique_ids(final(bonds)@),
        j <= old(bonds).len(),
        j < old(bonds).len() ==> old(bonds)@[j as int].id@ == b.id@ && final(bonds)@ == old(bonds)@.update(j as int, b),
        j == old(bonds).len() ==> final(bonds)@ == old(bonds)@.push(b),
{
    let mut j: usize = 0;
    while j < bonds.len()
        invariant
            j <= bonds.len(),
            bonds@ == old(bonds)@,
            unique_ids(bonds@),
            forall|i: int| 0 <= i < j ==> bonds@[i].id@ != b.id@,
        decreases bonds.len() - j,
    {
        if bonds[j].id.same_as(&b.id) {
            bonds.set(j, b);
            assert(unique_ids(bonds@)) by {
                assert forall|p: int, q: int| 0 <= p < bonds.len() && 0 <= q < bonds.len() && p != q implies bonds@[p].id@ != bonds@[q].id@ by {
                    assert(old(bonds)@[p].id@ == bonds@[p].id@);
                    assert(old(bonds)@[q].id@ == bonds@[q].id@);
                }
            }
            return j;
        }
        j = j + 1;
    }
    bonds.push(b);
    j
}

/// The instruments of the series `bond_type` among the rows, with `bond_length_in_years` rates
/// each: one per identifier, defined by the last row with it. Fails with the error of the first
/// row of the series that is wrong.
pub fn extract_bond_type(rows: &Vec<Vec<Cell>>, bond_type: &str, bond_length_in_years: u8) -> (r: Result<Vec<Bond>, ExtractError>)
    requires
        rows_wf(rows@),
    ensures
        r is Err <==> extraction_fails(rows@, bond_type@, bond_length_in_years as int),
        r matches Err(e) ==> first_error(rows@, bond_type@, bond_length_in_years as int, e),
        r matches Ok(bonds) ==> extracted(rows@, bond_type@, bond_length_in_years as int, bonds@, rows.len() as int),
        r matches Ok(bonds) ==> forall|i: int| 0 <= i < bonds.len() ==> (#[trigger] bonds@[i]).wf(),
{
    let ghost tenor = bond_length_in_years as int;
    let mut bonds: Vec<Bond> = Vec::new();
    let mut index: usize = 0;
    while index < rows.len()
        invariant
            index <= rows.len(),
            rows_wf(rows@),
            tenor == bond_length_in_years as int,
            forall|q: int| 0 <= q < index ==> !failing(rows@, bond_type@, tenor, q),
            extracted(rows@, bond_type@, tenor, bonds@, index as int),
        decreases rows.len() - index,
    {
        let row = &rows[index];
        let mut matched = false;
        if row.len() > 0 {
            match &row[0] {
                Cell::Text(value) => {
                    if has_prefix(value.as_str(), bond_type) {
                        matched = true;
                        assert forall|c: int| 0 <= c < row.len() implies (#[trigger] row@[c]).wf() by {
                            assert(rows@[index as int]@[c].wf());
                        }
                        match parse_row(row, value, index, bond_length_in_years) {
                            Err(e) => {
                                assert(failing(rows@, bond_type@, tenor, index as int));
                                assert(first_error(rows@, bond_type@, tenor, e));
                                return Err(e);
                            },
                            Ok(b) => {
                                let ghost old_bonds = bonds@;
                                let j = upsert(&mut bonds, b);
                                proof {
                                    lemma_extend_with(rows@, bond_type@, tenor, old_bonds, bonds@, b, j as int, index as int);
                                }
                            },
                        }
                    }
                },
                _ => {},
            }
        }
        if !matched {
            proof {
                lemma_extend_skip(rows@, bond_type@, tenor, bonds@, index as int);
            }
        }
        index = index + 1;
    }
    assert forall|i: int| 0 <= i < bonds.len() implies (#[trigger] bonds@[i]).wf() by {
        assert(defined(rows@, bond_type@, tenor, bonds@[i], rows.len() as int));
        let r = choose|r: int| #[trigger] defines(rows@, bond_type@, tenor, r, bonds@[i], rows.len() as int);
        assert(!failing(rows@, bond_type@, tenor, r));
        lemma_built_wf(rows@[r]@, r, tenor, bonds@[i]);
    }
    Ok(bonds)
}

/// The tenor of the series of ten-year instruments (label `EDO`).
pub const EDO_YEARS: u8 = 10;

/// The tenor of the series of twelve-year instruments (label `ROD`).
pub const ROD_YEARS: u8 = 12;

pub open spec fn edo_label() -> Seq<char> {
    seq!['E', 'D', 'O']
}

pub open spec fn rod_label() -> Seq<char> {
    seq!['R', 'O', 'D']
}

/// The instruments of both series, from the rows of their sheets: fails with the first error of
/// the ten-year series, or else with the first of the twelve-year series.
pub fn read_bonds(edo_rows: &Vec<Vec<Cell>>, rod_rows: &Vec<Vec<Cell>>) -> (r: Result<AllBonds, ExtractError>)
    requires
        rows_wf(edo_rows@),
        rows_wf(rod_rows@),
    ensures
        r is Err <==> extraction_fails(edo_rows@, edo_label(), EDO_YEARS as int) || extraction_fails(
            rod_rows@,
            rod_label(),
            ROD_YEARS as int,
        ),
        r matches Err(e) ==> if extraction_fails(edo_rows@, edo_label(), EDO_YEARS as int) {
            first_error(edo_rows@, edo_label(), EDO_YEARS as int, e)
        } else {
            first_error(rod_rows@, rod_label(), ROD_YEARS as int, e)
        },
        r matches Ok(all) ==> extracted(edo_rows@, edo_label(), EDO_YEARS as int, all.edo@, edo_rows.len() as int)
            && extracted(rod_rows@, rod_label(), ROD_YEARS as int, all.rod@, rod_rows.len() as int),
        r matches Ok(all) ==> (forall|i: int| 0 <= i < all.edo.len() ==> (#[trigger] all.edo@[i]).wf())
            && (forall|i: int| 0 <= i < all.rod.len() ==> (#[trigger] all.rod@[i]).wf()),
{
    proof {
        reveal_strlit("EDO");
        reveal_strlit("ROD");
    }
    assert("EDO"@ =~= edo_label());
    assert("ROD"@ =~= rod_label());
    let edo = match extract_bond_type(edo_rows, "EDO", EDO_YEARS) {
        Ok(v) => v,
        Err(e) => {
            return Err(e);
        },
    };
    let rod = match extract_bond_type(rod_rows, "ROD", ROD_YEARS) {
        Ok(v) => v,
        Err(e) => {
            return Err(e);
        },
    };
    Ok(AllBonds { edo, rod })
}

} // verus!
