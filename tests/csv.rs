use bonds::calendar::Date;
use bonds::model::{Bond, BondId};

fn bond(start: Date, values: Vec<i64>) -> Bond {
    Bond {
        id: BondId::new("TST0124"),
        initial_date: start,
        sale_end: start,
        buyout_date: start,
        values,
    }
}

#[test]
fn csv_of_four_values() {
    let b = bond(Date::new(2024, 1, 1).unwrap(), vec![10000, 10050, 10100, 9950]);
    assert_eq!(
        b.to_csv(),
        "date,value\n2024-01-01,100\n2024-01-02,100.5\n2024-01-03,101\n2024-01-04,99.5\n"
    );
}

#[test]
fn csv_dates_cross_months_and_years() {
    let b = bond(Date::new(2023, 12, 31).unwrap(), vec![10001, 10010, 5]);
    assert_eq!(
        b.to_csv(),
        "date,value\n2023-12-31,100.01\n2024-01-01,100.1\n2024-01-02,0.05\n"
    );
}

#[test]
fn csv_of_leap_day_and_negative_value() {
    let b = bond(Date::new(2024, 2, 28).unwrap(), vec![-5, 0, -12345]);
    assert_eq!(
        b.to_csv(),
        "date,value\n2024-02-28,-0.05\n2024-02-29,0\n2024-03-01,-123.45\n"
    );
}

#[test]
fn csv_of_early_year_is_zero_padded() {
    let b = bond(Date::new(987, 3, 9).unwrap(), vec![100]);
    assert_eq!(b.to_csv(), "date,value\n0987-03-09,1\n");
}

#[test]
fn csv_round_trip_recovers_dates_and_values() {
    let start = Date::new(2024, 2, 27).unwrap();
    let values = vec![10000, 10003, 10050, 12345, 99];
    let text = bond(start, values.clone()).to_csv();
    let mut lines = text.lines();
    assert_eq!(lines.next(), Some("date,value"));
    let expected_dates = ["2024-02-27", "2024-02-28", "2024-02-29", "2024-03-01", "2024-03-02"];
    for (k, line) in lines.enumerate() {
        let (d, v) = line.split_once(',').unwrap();
        assert_eq!(d, expected_dates[k]);
        let cents = (v.parse::<f64>().unwrap() * 100.0).round() as i64;
        assert_eq!(cents, values[k]);
    }
}

#[test]
fn bond_id_keeps_its_text() {
    let id = BondId::new("ROD1235");
    assert_eq!(id.as_str(), "ROD1235");
    assert_eq!(id.value(), "ROD1235".to_string());
}
