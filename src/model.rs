//! Instruments: their identifiers, dates and daily values, and the CSV rendering of a series.
use crate::calendar::{add_days, date_at, day_number, iso_text, last_date, lemma_date_at, Date};
use crate::text::{
    cents_text, date_text, lemma_cents_text_round_trip, lemma_date_text_round_trip, parse_cents,
    parse_date, push_cents,
};
use crate::valuation::value_ints;
use vstd::prelude::*;

verus! {

/// The identifier of an instrument, compared case-sensitively.
#[derive(Clone, Debug, PartialEq, Eq, Hash, PartialOrd, Ord)]
pub struct BondId(String);

impl View for BondId {
    type V = Seq<char>;

    closed spec fn view(&self) -> Seq<char> {
        self.0@
    }
}

impl BondId {
    pub fn new(id: &str) -> (r: BondId)
        ensures
            r@ == id@,
    {
        BondId(id.to_owned())
    }

    /// The identifier as text.
    pub fn value(self) -> (r: String)
        ensures
            r@ == self@,
    {
        self.0
    }

    /// Another identifier with the same text.
    pub fn duplicate(&self) -> (r: BondId)
        ensures
            r@ == self@,
    {
        BondId(self.0.clone())
    }

    /// Whether both identifiers hold the same text.
    pub fn same_as(&self, other: &BondId) -> (r: bool)
        ensures
            r == (self@ == other@),
    {
        self.0 == other.0
    }

    pub fn as_str(&self) -> (r: &str)
        ensures
            r@ == self@,
    {
        self.0.as_str()
    }
}

/// An instrument: its sale window, buyout date, and value on each day from the start of sale
/// (`values[k]` in cents on the day `k` days after `initial_date`).
#[derive(Clone, Debug, PartialEq)]
pub struct Bond {
    pub id: BondId,
    pub initial_date: Date,
    pub sale_end: Date,
    pub buyout_date: Date,
    pub values: Vec<i64>,
}

/// The instruments of each series, each identifier at most once per series.
pub struct AllBonds {
    pub edo: Vec<Bond>,
    pub rod: Vec<Bond>,
}

/// The header line of the CSV rendering.
pub open spec fn csv_header() -> Seq<char> {
    seq!['d', 'a', 't', 'e', ',', 'v', 'a', 'l', 'u', 'e', '\n']
}

/// One line of the CSV rendering.
pub open spec fn csv_row(d: Date, value: int) -> Seq<char> {
    date_text(d) + seq![','] + cents_text(value) + seq!['\n']
}

/// The lines of `values`, the `k`-th dated `k` days after `start`.
pub open spec fn csv_rows(start: Date, values: Seq<int>) -> Seq<char>
    decreases values.len(),
{
    if values.len() == 0 {
        Seq::empty()
    } else {
        csv_rows(start, values.drop_last()) + csv_row(
            date_at(day_number(start) + values.len() - 1),
            values.last(),
        )
    }
}

/// Each of the first `n` days from `start` on is a valid date.
pub open spec fn row_dates_exist(start: Date, n: int) -> bool {
    forall|k: int|
        0 <= k < n ==> (#[trigger] date_at(day_number(start) + k)).wf() && day_number(date_at(day_number(start) + k))
            == day_number(start) + k
}

/// The text of a line up to its first comma.
pub open spec fn before_comma(t: Seq<char>) -> Seq<char>
    decreases t.len(),
{
    if t.len() == 0 || t[0] == ',' {
        Seq::empty()
    } else {
        seq![t[0]] + before_comma(t.drop_first())
    }
}

/// The text of a line after its first comma.
pub open spec fn after_comma(t: Seq<char>) -> Seq<char>
    decreases t.len(),
{
    if t.len() == 0 {
        Seq::empty()
    } else if t[0] == ',' {
        t.drop_first()
    } else {
        after_comma(t.drop_first())
    }
}

/// Reads a line of the CSV rendering: year, month and day of its date, and its value in cents.
pub open spec fn parse_csv_row(line: Seq<char>) -> (int, int, int, int) {
    let body = line.drop_last();
    let date = parse_date(before_comma(body));
    (date.0, date.1, date.2, parse_cents(after_comma(body)))
}

proof fn lemma_split_at_comma(a: Seq<char>, b: Seq<char>)
    requires
        forall|i: int| 0 <= i < a.len() ==> #[trigger] a[i] != ',',
    ensures
        before_comma(a + seq![','] + b) == a,
        after_comma(a + seq![','] + b) == b,
    decreases a.len(),
{
    let t = a + seq![','] + b;
    if a.len() == 0 {
        assert(t.drop_first() =~= b);
    } else {
        assert(t.drop_first() =~= a.drop_first() + seq![','] + b);
        lemma_split_at_comma(a.drop_first(), b);
        assert(seq![a[0]] + a.drop_first() =~= a);
    }
}

proof fn lemma_rows_prefix(start: Date, values: Seq<int>, k: int)
    requires
        0 <= k <= values.len(),
    ensures
        csv_rows(start, values.take(k)).len() <= csv_rows(start, values).len(),
        csv_rows(start, values.take(k)) == csv_rows(start, values).take(csv_rows(start, values.take(k)).len() as int),
    decreases values.len() - k,
{
    if k == values.len() {
        assert(values.take(k) =~= values);
        assert(csv_rows(start, values) =~= csv_rows(start, values).take(csv_rows(start, values).len() as int));
    } else {
        lemma_rows_prefix(start, values, k + 1);
        let shorter = values.take(k + 1);
        assert(shorter.drop_last() =~= values.take(k));
        let p = csv_rows(start, values.take(k));
        let q = csv_rows(start, shorter);
        assert(p =~= q.take(p.len() as int));
        assert(p =~= csv_rows(start, values).take(p.len() as int));
    }
}

/// Reading back the CSV rendering: the line of the `k`-th value follows the lines of the values
/// before it, holds no line break but its last character, and reads back as the date `k` days
/// after the start and exactly the `k`-th value.
pub proof fn lemma_csv_round_trip(start: Date, values: Seq<int>, k: int)
    requires
        0 <= k < values.len(),
        row_dates_exist(start, values.len() as int),
    ensures
        ({
            let d = date_at(day_number(start) + k);
            let line = csv_row(d, values[k]);
            &&& (csv_rows(start, values.take(k)) + line).len() <= csv_rows(start, values).len()
            &&& csv_rows(start, values.take(k)) + line == csv_rows(start, values).take(
                (csv_rows(start, values.take(k)) + line).len() as int,
            )
            &&& line.last() == '\n'
            &&& forall|i: int| 0 <= i < line.len() - 1 ==> #[trigger] line[i] != '\n'
            &&& day_number(d) == day_number(start) + k
            &&& parse_csv_row(line) == (d.year as int, d.month as int, d.day as int, values[k])
        }),
{
    let d = date_at(day_number(start) + k);
    assert(d.wf());
    let dt = date_text(d);
    let ct = cents_text(values[k]);
    let line = csv_row(d, values[k]);
    lemma_date_text_round_trip(d.year as int, d.month as nat, d.day as nat, dt);
    lemma_cents_text_round_trip(values[k]);
    assert(line.drop_last() =~= dt + seq![','] + ct);
    lemma_split_at_comma(dt, ct);
    lemma_rows_prefix(start, values, k + 1);
    assert(values.take(k + 1).drop_last() =~= values.take(k));
    assert forall|i: int| 0 <= i < line.len() - 1 implies #[trigger] line[i] != '\n' by {
        if i < dt.len() {
            assert(line[i] == dt[i]);
        } else if i > dt.len() {
            assert(line[i] == ct[i - dt.len() - 1]);
        }
    }
}

/// The CSV rendering of a series that starts on `start`.
pub open spec fn csv_text(start: Date, values: Seq<int>) -> Seq<char> {
    csv_header() + csv_rows(start, values)
}

impl Bond {
    /// Every day of the series is a representable date.
    pub open spec fn dates_in_range(&self) -> bool {
        &&& self.initial_date.wf()
        &&& day_number(self.initial_date) + self.values.len() - 1 <= day_number(last_date())
    }

    /// The dates are valid, the sale window ends after it starts and before the buyout, and the
    /// series starts on the first day of sale and ends within range.
    pub open spec fn wf(&self) -> bool {
        &&& self.dates_in_range()
        &&& self.sale_end.wf()
        &&& self.buyout_date.wf()
        &&& day_number(self.initial_date) < day_number(self.sale_end)
        &&& day_number(self.sale_end) < day_number(self.buyout_date)
        &&& self.values.len() >= 1
    }

    /// The series as CSV: the line `date,value`, then for each value its date as `YYYY-MM-DD`
    /// and the value in its shortest decimal form.
    pub fn to_csv(&self) -> (r: String)
        requires
            self.dates_in_range(),
        ensures
            r@ == csv_text(self.initial_date, value_ints(self.values@)),
            row_dates_exist(self.initial_date, self.values.len() as int),
    {
        let mut csv = String::new();
        proof {
            reveal_strlit("date,value\n");
        }
        csv.append("date,value\n");
        assert(csv@ == csv_header());
        let mut index: usize = 0;
        while index < self.values.len()
            invariant
                self.dates_in_range(),
                index <= self.values.len(),
                csv@ == csv_text(self.initial_date, value_ints(self.values@.subrange(0, index as int))),
                row_dates_exist(self.initial_date, index as int),
            decreases self.values.len() - index,
        {
            let date = match add_days(self.initial_date, index as u64) {
                Some(d) => d,
                None => {
                    assert(false);
                    return csv;
                },
            };
            proof {
                lemma_date_at(date);
                assert(date_at(day_number(self.initial_date) + index) == date);
            }
            let ghost before = csv@;
            csv.append(iso_text(date).as_str());
            proof {
                reveal_strlit(",");
            }
            csv.append(",");
            push_cents(&mut csv, self.values[index]);
            proof {
                reveal_strlit("\n");
            }
            csv.append("\n");
            proof {
                let vs = value_ints(self.values@.subrange(0, index + 1));
                assert(vs.drop_last() =~= value_ints(self.values@.subrange(0, index as int)));
                assert(vs.last() == self.values[index as int] as int);
                assert(csv@ =~= before + csv_row(date, self.values[index as int] as int));
                assert forall|k: int| 0 <= k < index + 1 implies (#[trigger] date_at(day_number(self.initial_date) + k)).wf()
                    && day_number(date_at(day_number(self.initial_date) + k)) == day_number(self.initial_date) + k by {
                    if k == index {
                        assert(date_at(day_number(self.initial_date) + k) == date);
                    }
                }
            }
            index = index + 1;
        }
        assert(self.values@.subrange(0, self.values.len() as int) =~= self.values@);
        csv
    }
}

} // verus!
