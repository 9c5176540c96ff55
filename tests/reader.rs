use bonds::calendar::Date;
use bonds::model::{Bond, BondId};
use bonds::reader::{extract_bond_type, read_bonds, Cell, ExtractError};
use bonds::valuation::{generate, BASE_VALUE};

fn date(y: i32, m: u32, d: u32) -> Date {
    Date::new(y, m, d).unwrap()
}

fn text(s: &str) -> Cell {
    Cell::Text(s.to_string())
}

fn day(d: Date) -> Cell {
    Cell::Other { date: Some(d) }
}

fn rate(mantissa: i128, scale: u32) -> Cell {
    Cell::Float { mantissa, scale, date: None }
}

fn row(id: &str, start: Date, end: Date, rates: Vec<Cell>) -> Vec<Cell> {
    let mut r = vec![
        text(id),
        text("oferta"),
        Cell::Other { date: None },
        day(start),
        day(end),
        rate(100, 0),
        rate(100, 0),
        rate(0, 0),
        Cell::Other { date: None },
    ];
    r.extend(rates);
    r
}

fn header() -> Vec<Cell> {
    vec![text("Seria"), text("Oprocentowanie")]
}

fn find<'a>(bonds: &'a [Bond], id: &str) -> Option<&'a Bond> {
    bonds.iter().find(|b| b.id == BondId::new(id))
}

fn sheets() -> (Vec<Vec<Cell>>, Vec<Vec<Cell>>) {
    let edo = vec![
        header(),
        row("EDO1224", date(2014, 12, 1), date(2014, 12, 31), vec![rate(35, 3), rate(175, 4)]),
        row("EDO0125", date(2015, 1, 1), date(2015, 1, 31), vec![rate(35, 3), rate(15, 3)]),
    ];
    let rod = vec![
        header(),
        row("ROD1235", date(2023, 12, 1), date(2023, 12, 31), vec![rate(725, 4), rate(7, 2)]),
    ];
    (edo, rod)
}

#[test]
fn test_read_rod1235bond() {
    let (edo, rod) = sheets();
    let result = read_bonds(&edo, &rod).expect("Should read bondss");
    let rod1235bond = find(&result.rod, "ROD1235").expect("Should find ROD1235 bond");
    assert_eq!(rod1235bond.initial_date, date(2023, 12, 1));
    assert_eq!(rod1235bond.sale_end, date(2023, 12, 31));
    assert_eq!(rod1235bond.buyout_date, date(2035, 12, 1));
    assert_eq!(rod1235bond.values.len(), 732);
    assert_eq!(rod1235bond.values[366], 10725);
    assert_eq!(rod1235bond.values[731], 11476);
}

#[test]
fn test_read_edo1224bond() {
    let (edo, rod) = sheets();
    let result = read_bonds(&edo, &rod).expect("Should read bonds");
    let edo1224bond = find(&result.edo, "EDO1224").expect("Should find edo1224 bond");
    assert_eq!(edo1224bond.buyout_date, date(2024, 12, 1));
    assert_eq!(edo1224bond.values, generate(BASE_VALUE, &vec![3500, 1750], date(2014, 12, 1)).unwrap());
}

#[test]
fn test_read_edo0125bind() {
    let (edo, rod) = sheets();
    let result = read_bonds(&edo, &rod).expect("Should read bonds");
    let edo0125bond = find(&result.edo, "EDO0125").expect("Should find edo0125 bond");
    assert_eq!(edo0125bond.buyout_date, date(2025, 1, 1));
    assert_eq!(edo0125bond.values.len(), 1 + 365 + 366);
    assert_eq!(result.edo.len(), 2);
    assert_eq!(result.rod.len(), 1);
}

#[test]
fn rates_are_rounded_to_five_places() {
    let rows = vec![row("EDO0323", date(2023, 3, 1), date(2023, 3, 31), vec![rate(7249995, 8)])];
    let bonds = extract_bond_type(&rows, "EDO", 10).unwrap();
    assert_eq!(bonds[0].values, generate(BASE_VALUE, &vec![7250], date(2023, 3, 1)).unwrap());
    assert_ne!(bonds[0].values, generate(BASE_VALUE, &vec![7249], date(2023, 3, 1)).unwrap());
    let down = vec![row("EDO0323", date(2023, 3, 1), date(2023, 3, 31), vec![rate(724949999, 10)])];
    let bonds = extract_bond_type(&down, "EDO", 10).unwrap();
    assert_eq!(bonds[0].values, generate(BASE_VALUE, &vec![7249], date(2023, 3, 1)).unwrap());
}

#[test]
fn non_numeric_rate_cells_are_skipped() {
    let rows = vec![row(
        "EDO0323",
        date(2023, 3, 1),
        date(2023, 3, 31),
        vec![rate(7, 2), text("n/a"), Cell::Other { date: None }, rate(5, 2)],
    )];
    let bonds = extract_bond_type(&rows, "EDO", 10).unwrap();
    assert_eq!(bonds[0].values, generate(BASE_VALUE, &vec![7000, 5000], date(2023, 3, 1)).unwrap());
}

#[test]
fn rates_past_the_tenor_are_ignored() {
    let rows = vec![row(
        "EDO0323",
        date(2023, 3, 1),
        date(2023, 3, 31),
        vec![rate(7, 2), rate(7, 2), rate(7, 2)],
    )];
    let bonds = extract_bond_type(&rows, "EDO", 2).unwrap();
    assert_eq!(bonds[0].values.len(), 1 + 366 + 365);
    assert_eq!(bonds[0].buyout_date, date(2025, 3, 1));
}

#[test]
fn rows_of_other_series_are_ignored() {
    let rows = vec![
        header(),
        row("ROD0323", date(2023, 3, 1), date(2023, 3, 31), vec![]),
        vec![rate(1, 0), text("EDO")],
        vec![],
        row("EDO0323", date(2023, 3, 1), date(2023, 3, 31), vec![]),
    ];
    let bonds = extract_bond_type(&rows, "EDO", 10).unwrap();
    assert_eq!(bonds.len(), 1);
    assert_eq!(bonds[0].id.as_str(), "EDO0323");
    assert_eq!(bonds[0].values, vec![BASE_VALUE]);
}

#[test]
fn a_later_row_replaces_the_same_id() {
    let rows = vec![
        row("EDO0323", date(2023, 3, 1), date(2023, 3, 31), vec![]),
        row("EDO0323", date(2023, 4, 1), date(2023, 4, 30), vec![]),
    ];
    let bonds = extract_bond_type(&rows, "EDO", 10).unwrap();
    assert_eq!(bonds.len(), 1);
    assert_eq!(bonds[0].initial_date, date(2023, 4, 1));
}

#[test]
fn missing_start_date_is_an_error() {
    let mut r = row("EDO0323", date(2023, 3, 1), date(2023, 3, 31), vec![]);
    r[3] = text("soon");
    let rows = vec![header(), r];
    assert_eq!(
        extract_bond_type(&rows, "EDO", 10).unwrap_err(),
        ExtractError::MissingDate { row: 1, column: 3 }
    );
}

#[test]
fn missing_end_date_is_an_error() {
    let rows = vec![vec![text("EDO0323"), text(""), text(""), day(date(2023, 3, 1))]];
    assert_eq!(
        extract_bond_type(&rows, "EDO", 10).unwrap_err(),
        ExtractError::MissingDate { row: 0, column: 4 }
    );
}

#[test]
fn leap_day_start_gets_first_of_march_buyout() {
    let rows = vec![row("EDO0224", date(2024, 2, 29), date(2024, 3, 31), vec![rate(7, 2)])];
    let bonds = extract_bond_type(&rows, "EDO", 10).unwrap();
    assert_eq!(bonds[0].buyout_date, date(2034, 3, 1));
    assert_eq!(bonds[0].values.len(), 1 + 366);
}

#[test]
fn leap_day_start_keeps_leap_day_buyout_in_leap_year() {
    let rows = vec![row("ROD0236", date(2024, 2, 29), date(2024, 3, 31), vec![rate(7, 2)])];
    let bonds = extract_bond_type(&rows, "ROD", 12).unwrap();
    assert_eq!(bonds[0].buyout_date, date(2036, 2, 29));
}

#[test]
fn buyout_past_the_last_year_is_an_error() {
    let rows = vec![row("EDO0142", date(262140, 1, 1), date(262140, 1, 31), vec![])];
    assert_eq!(
        extract_bond_type(&rows, "EDO", 10).unwrap_err(),
        ExtractError::MissingBuyoutDate { row: 0 }
    );
}

#[test]
fn overflowing_values_are_an_error() {
    let rows = vec![row("EDO0323", date(2023, 3, 1), date(2023, 3, 31), vec![rate(21474, 0), rate(21474, 0), rate(21474, 0), rate(21474, 0), rate(21474, 0)])];
    let bonds = extract_bond_type(&rows, "EDO", 10);
    assert_eq!(bonds.unwrap_err(), ExtractError::Valuation { row: 0 });
}

#[test]
fn huge_rate_is_an_error() {
    let rows = vec![row("EDO0323", date(2023, 3, 1), date(2023, 3, 31), vec![rate(10_000_000_000, 0)])];
    assert_eq!(
        extract_bond_type(&rows, "EDO", 10).unwrap_err(),
        ExtractError::RateOutOfRange { row: 0 }
    );
}

#[test]
fn inverted_sale_window_is_an_error() {
    let rows = vec![row("EDO0323", date(2023, 3, 31), date(2023, 3, 1), vec![])];
    assert_eq!(
        extract_bond_type(&rows, "EDO", 10).unwrap_err(),
        ExtractError::SaleWindow { row: 0 }
    );
}

#[test]
fn the_first_bad_row_is_reported() {
    let mut late = row("EDO0423", date(2023, 4, 1), date(2023, 4, 30), vec![]);
    late[4] = text("?");
    let rows = vec![
        row("EDO0323", date(2023, 3, 1), date(2023, 3, 31), vec![]),
        late,
        row("EDO0523", date(2023, 5, 31), date(2023, 5, 1), vec![]),
    ];
    assert_eq!(
        extract_bond_type(&rows, "EDO", 10).unwrap_err(),
        ExtractError::MissingDate { row: 1, column: 4 }
    );
}
