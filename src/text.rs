//! Decimal renderings of integers, dates and amounts of cents.
use crate::calendar::Date;
use vstd::prelude::*;

verus! {

pub open spec fn digit_char(d: int) -> char {
    if d == 0 {
        '0'
    } else if d == 1 {
        '1'
    } else if d == 2 {
        '2'
    } else if d == 3 {
        '3'
    } else if d == 4 {
        '4'
    } else if d == 5 {
        '5'
    } else if d == 6 {
        '6'
    } else if d == 7 {
        '7'
    } else if d == 8 {
        '8'
    } else {
        '9'
    }
}

/// The decimal digits of `n`, without leading zeros.
pub open spec fn digits(n: nat) -> Seq<char>
    decreases n,
{
    if n < 10 {
        seq![digit_char(n as int)]
    } else {
        digits(n / 10).push(digit_char((n % 10) as int))
    }
}

/// `s` with zeros in front, up to width `w`.
pub open spec fn zero_pad(s: Seq<char>, w: nat) -> Seq<char> {
    if s.len() >= w {
        s
    } else {
        Seq::new((w - s.len()) as nat, |i: int| '0') + s
    }
}

/// The year in at least four digits; a sign in front where it is outside 0..=9999.
pub open spec fn year_text(y: int) -> Seq<char> {
    if 0 <= y <= 9999 {
        zero_pad(digits(y as nat), 4)
    } else if y < 0 {
        seq!['-'] + zero_pad(digits((-y) as nat), 4)
    } else {
        seq!['+'] + zero_pad(digits(y as nat), 4)
    }
}

/// The date as `YYYY-MM-DD`.
pub open spec fn date_text(d: Date) -> Seq<char> {
    year_text(d.year as int) + seq!['-'] + zero_pad(digits(d.month as nat), 2) + seq!['-']
        + zero_pad(digits(d.day as nat), 2)
}

/// The fractional part of a whole number of hundredths, without trailing zeros.
pub open spec fn fraction_text(f: int) -> Seq<char> {
    if f == 0 {
        Seq::empty()
    } else if f % 10 == 0 {
        seq!['.', digit_char(f / 10)]
    } else {
        seq!['.', digit_char(f / 10), digit_char(f % 10)]
    }
}

/// An amount of cents as a plain decimal number in its shortest form
/// (`10000` is `100`, `10050` is `100.5`, `-5` is `-0.05`).
pub open spec fn cents_text(c: int) -> Seq<char> {
    let a = if c < 0 {
        -c
    } else {
        c
    };
    let sign = if c < 0 {
        seq!['-']
    } else {
        Seq::empty()
    };
    sign + digits((a / 100) as nat) + fraction_text(a % 100)
}

fn digit_str(d: u64) -> (r: &'static str)
    requires
        d < 10,
    ensures
        r@ == seq![digit_char(d as int)],
{
    if d == 0 {
        proof {
            reveal_strlit("0");
        }
        "0"
    } else if d == 1 {
        proof {
            reveal_strlit("1");
        }
        "1"
    } else if d == 2 {
        proof {
            reveal_strlit("2");
        }
        "2"
    } else if d == 3 {
        proof {
            reveal_strlit("3");
        }
        "3"
    } else if d == 4 {
        proof {
            reveal_strlit("4");
        }
        "4"
    } else if d == 5 {
        proof {
            reveal_strlit("5");
        }
        "5"
    } else if d == 6 {
        proof {
            reveal_strlit("6");
        }
        "6"
    } else if d == 7 {
        proof {
            reveal_strlit("7");
        }
        "7"
    } else if d == 8 {
        proof {
            reveal_strlit("8");
        }
        "8"
    } else {
        proof {
            reveal_strlit("9");
        }
        "9"
    }
}

/// Appends the decimal digits of `n` to `s`.
pub fn push_digits(s: &mut String, n: u64)
    ensures
        final(s)@ == old(s)@ + digits(n as nat),
    decreases n,
{
    if n < 10 {
        s.append(digit_str(n));
    } else {
        push_digits(s, n / 10);
        s.append(digit_str(n % 10));
        assert(digits(n as nat) == digits((n / 10) as nat).push(digit_char((n % 10) as int)));
        assert(final(s)@ =~= old(s)@ + digits(n as nat));
    }
}

/// Appends an amount of cents to `s` as a plain decimal number in its shortest form.
pub fn push_cents(s: &mut String, c: i64)
    ensures
        final(s)@ == old(s)@ + cents_text(c as int),
{
    let a: u64 = if c < 0 {
        (0 - (c as i128)) as u64
    } else {
        c as u64
    };
    if c < 0 {
        proof {
            reveal_strlit("-");
        }
        s.append("-");
    }
    push_digits(s, a / 100);
    let f = a % 100;
    if f != 0 {
        proof {
            reveal_strlit(".");
        }
        s.append(".");
        s.append(digit_str(f / 10));
        if f % 10 != 0 {
            s.append(digit_str(f % 10));
        }
    }
    assert(final(s)@ =~= old(s)@ + cents_text(c as int));
}

pub open spec fn is_digit(c: char) -> bool {
    c == '0' || c == '1' || c == '2' || c == '3' || c == '4' || c == '5' || c == '6' || c == '7'
        || c == '8' || c == '9'
}

pub open spec fn digit_value(c: char) -> int {
    if c == '1' {
        1
    } else if c == '2' {
        2
    } else if c == '3' {
        3
    } else if c == '4' {
        4
    } else if c == '5' {
        5
    } else if c == '6' {
        6
    } else if c == '7' {
        7
    } else if c == '8' {
        8
    } else if c == '9' {
        9
    } else {
        0
    }
}

/// The number that a string of decimal digits denotes.
pub open spec fn digits_value(s: Seq<char>) -> int
    decreases s.len(),
{
    if s.len() == 0 {
        0
    } else {
        digits_value(s.drop_last()) * 10 + digit_value(s.last())
    }
}

pub open spec fn all_digits(s: Seq<char>) -> bool {
    forall|i: int| 0 <= i < s.len() ==> is_digit(#[trigger] s[i])
}

/// Reads a year written by `year_text`.
pub open spec fn parse_year(t: Seq<char>) -> int {
    if t.len() > 0 && t[0] == '-' {
        -digits_value(t.drop_first())
    } else if t.len() > 0 && t[0] == '+' {
        digits_value(t.drop_first())
    } else {
        digits_value(t)
    }
}

/// Reads year, month and day of a date written by `date_text`.
pub open spec fn parse_date(t: Seq<char>) -> (int, int, int) {
    let n = t.len() as int;
    (parse_year(t.take(n - 6)), digits_value(t.subrange(n - 5, n - 3)), digits_value(t.subrange(n - 2, n)))
}

/// Reads an unsigned amount of cents written by `cents_text`.
pub open spec fn parse_amount(u: Seq<char>) -> int {
    let n = u.len() as int;
    if n >= 3 && u[n - 3] == '.' {
        digits_value(u.take(n - 3)) * 100 + digits_value(u.skip(n - 2))
    } else if n >= 2 && u[n - 2] == '.' {
        digits_value(u.take(n - 2)) * 100 + digits_value(u.skip(n - 1)) * 10
    } else {
        digits_value(u) * 100
    }
}

/// Reads an amount of cents written by `cents_text`.
pub open spec fn parse_cents(t: Seq<char>) -> int {
    if t.len() > 0 && t[0] == '-' {
        -parse_amount(t.drop_first())
    } else {
        parse_amount(t)
    }
}

proof fn lemma_digit_char(k: int)
    requires
        0 <= k < 10,
    ensures
        digit_value(digit_char(k)) == k,
        is_digit(digit_char(k)),
        digits_value(seq![digit_char(k)]) == k,
{
    let one = seq![digit_char(k)];
    assert(one.drop_last() =~= Seq::<char>::empty());
    assert(digits_value(one) == digits_value(one.drop_last()) * 10 + digit_value(one.last()));
    assert(digits_value(Seq::<char>::empty()) == 0);
}

pub proof fn lemma_digits(n: nat)
    ensures
        digits_value(digits(n)) == n,
        all_digits(digits(n)),
        digits(n).len() >= 1,
        n < 10 ==> digits(n).len() == 1,
        n < 100 ==> digits(n).len() <= 2,
    decreases n,
{
    lemma_digit_char((n % 10) as int);
    if n < 10 {
        assert(digits(n) == seq![digit_char(n as int)]);
    } else {
        lemma_digits(n / 10);
        let d = digits(n);
        assert(d.drop_last() =~= digits(n / 10));
        assert forall|i: int| 0 <= i < d.len() implies is_digit(#[trigger] d[i]) by {
            if i < d.len() - 1 {
                assert(d[i] == digits(n / 10)[i]);
            }
        }
    }
}

proof fn lemma_zeros_value(k: nat)
    ensures
        digits_value(Seq::new(k, |i: int| '0')) == 0,
    decreases k,
{
    if k > 0 {
        assert(Seq::new(k, |i: int| '0').drop_last() =~= Seq::new((k - 1) as nat, |i: int| '0'));
        lemma_zeros_value((k - 1) as nat);
    }
}

proof fn lemma_prefixed_value(z: Seq<char>, s: Seq<char>)
    requires
        digits_value(z) == 0,
    ensures
        digits_value(z + s) == digits_value(s),
    decreases s.len(),
{
    if s.len() == 0 {
        assert(z + s =~= z);
    } else {
        assert((z + s).drop_last() =~= z + s.drop_last());
        lemma_prefixed_value(z, s.drop_last());
    }
}

pub proof fn lemma_zero_pad(s: Seq<char>, w: nat)
    requires
        all_digits(s),
    ensures
        digits_value(zero_pad(s, w)) == digits_value(s),
        all_digits(zero_pad(s, w)),
        zero_pad(s, w).len() == if s.len() >= w {
            s.len()
        } else {
            w
        },
{
    if s.len() < w {
        let z = Seq::new((w - s.len()) as nat, |i: int| '0');
        lemma_zeros_value((w - s.len()) as nat);
        lemma_prefixed_value(z, s);
        assert forall|i: int| 0 <= i < (z + s).len() implies is_digit(#[trigger] (z + s)[i]) by {
            if i >= z.len() {
                assert((z + s)[i] == s[i - z.len()]);
            }
        }
    }
}

/// A date written by `date_text` reads back as its year, month and day.
pub proof fn lemma_date_text_round_trip(y: int, m: nat, d: nat, t: Seq<char>)
    requires
        1 <= m <= 12,
        1 <= d <= 31,
        t == year_text(y) + seq!['-'] + zero_pad(digits(m), 2) + seq!['-'] + zero_pad(digits(d), 2),
    ensures
        parse_date(t) == (y, m as int, d as int),
        forall|i: int| 0 <= i < t.len() ==> #[trigger] t[i] != ',' && t[i] != '\n',
{
    lemma_digits(m);
    lemma_digits(d);
    lemma_zero_pad(digits(m), 2);
    lemma_zero_pad(digits(d), 2);
    let a = if y < 0 {
        -y
    } else {
        y
    };
    lemma_digits(a as nat);
    lemma_zero_pad(digits(a as nat), 4);
    let yt = year_text(y);
    let mt = zero_pad(digits(m), 2);
    let dt = zero_pad(digits(d), 2);
    let n = t.len() as int;
    assert(t.take(n - 6) =~= yt);
    assert(t.subrange(n - 5, n - 3) =~= mt);
    assert(t.subrange(n - 2, n) =~= dt);
    let body = zero_pad(digits(a as nat), 4);
    if y < 0 || y > 9999 {
        assert(yt.drop_first() =~= body);
    }
    assert forall|i: int| 0 <= i < t.len() implies #[trigger] t[i] != ',' && t[i] != '\n' by {
        if i < yt.len() {
            if y < 0 || y > 9999 {
                if i > 0 {
                    assert(yt[i] == body[i - 1]);
                }
            } else {
                assert(yt[i] == body[i]);
            }
        } else if i == yt.len() {
        } else if i < yt.len() + 3 {
            assert(t[i] == mt[i - yt.len() - 1]);
        } else if i == yt.len() + 3 {
        } else {
            assert(t[i] == dt[i - yt.len() - 4]);
        }
    }
}

/// An amount written by `cents_text` reads back as itself.
pub proof fn lemma_cents_text_round_trip(c: int)
    ensures
        parse_cents(cents_text(c)) == c,
        forall|i: int| 0 <= i < cents_text(c).len() ==> #[trigger] cents_text(c)[i] != '\n',
{
    let a = if c < 0 {
        -c
    } else {
        c
    };
    let whole = digits((a / 100) as nat);
    let f = a % 100;
    lemma_digits((a / 100) as nat);
    let u = whole + fraction_text(f);
    let n = u.len() as int;
    lemma_digit_char(f / 10);
    lemma_digit_char(f % 10);
    assert(digits_value(seq![digit_char(f / 10), digit_char(f % 10)]) == (f / 10) * 10 + f % 10) by {
        assert(seq![digit_char(f / 10), digit_char(f % 10)].drop_last() =~= seq![digit_char(f / 10)]);
    }
    assert(parse_amount(u) == a) by {
        if f == 0 {
            assert(u =~= whole);
            if n >= 3 {
                assert(is_digit(u[n - 3]));
            }
            if n >= 2 {
                assert(is_digit(u[n - 2]));
            }
        } else if f % 10 == 0 {
            assert(u.take(n - 2) =~= whole);
            assert(u.skip(n - 1) =~= seq![digit_char(f / 10)]);
            if n >= 3 {
                assert(is_digit(u[n - 3]));
            }
        } else {
            assert(u.take(n - 3) =~= whole);
            assert(u.skip(n - 2) =~= seq![digit_char(f / 10), digit_char(f % 10)]);
        }
    }
    if f == 0 {
        assert(u =~= whole);
        assert(!is_digit('.'));
        if n >= 3 {
            assert(is_digit(u[n - 3]));
        }
        if n >= 2 {
            assert(is_digit(u[n - 2]));
        }
    } else if f % 10 == 0 {
        assert(u.take(n - 2) =~= whole);
        assert(u.skip(n - 1) =~= seq![digit_char(f / 10)]);
        assert(seq![digit_char(f / 10)].drop_last() =~= Seq::<char>::empty());
        if n >= 3 {
            assert(is_digit(u[n - 3]));
        }
    } else {
        assert(u.take(n - 3) =~= whole);
        assert(u.skip(n - 2) =~= seq![digit_char(f / 10), digit_char(f % 10)]);
        assert(seq![digit_char(f / 10), digit_char(f % 10)].drop_last() =~= seq![digit_char(f / 10)]);
        assert(seq![digit_char(f / 10)].drop_last() =~= Seq::<char>::empty());
    }
    let t = cents_text(c);
    if c < 0 {
        assert(t =~= seq!['-'] + u);
        assert(t.drop_first() =~= u);
    } else {
        assert(t =~= u);
        assert(is_digit(t[0]));
    }
    assert forall|i: int| 0 <= i < t.len() implies #[trigger] t[i] != '\n' by {
        if c < 0 && i == 0 {
        } else {
            let j = if c < 0 {
                i - 1
            } else {
                i
            };
            assert(t[i] == u[j]);
            if j < whole.len() {
                assert(is_digit(whole[j]));
            }
        }
    }
}

} // verus!
