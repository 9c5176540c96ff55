use bonds::calendar::Date;
use bonds::valuation::{generate, ValueGenerator, BASE_VALUE};

fn date(y: i32, m: u32, d: u32) -> Date {
    Date::new(y, m, d).unwrap()
}

#[test]
fn test_daily_bond_value_calculation_like_rod1235() {
    let mut generator = ValueGenerator::new(10000);
    generator.add_yearly_return(7250);
    generator.add_yearly_return(7000);

    let start_date = date(2023, 12, 1);
    let values = generator.calculate_daily_bond_values(start_date).unwrap();

    assert_eq!(values[..=366].len(), 367);
    assert_eq!(values[367..].len(), 365);
    assert_eq!(&values[..4], &[10000, 10002, 10004, 10006]);
    assert_eq!(values[366], 10725);
    assert_eq!(values[367], 10727);
    assert_eq!(values[values.len() - 1], 11476);
}

#[test]
fn second_year_starts_from_last_value_of_first() {
    let values = generate(BASE_VALUE, &vec![7250, 7000], date(2023, 12, 1)).unwrap();
    let anchor = values[366];
    // day 1 of year two: anchor * (1 + 0.07 / 365), rounded to cents
    let expected = ((anchor as i128 * (365 * 100000 + 7000) * 2 + 365 * 100000) / (2 * 365 * 100000)) as i64;
    assert_eq!(values[367], expected);
}

#[test]
fn empty_rates_give_the_base_value_alone() {
    let values = generate(BASE_VALUE, &vec![], date(2024, 2, 29)).unwrap();
    assert_eq!(values, vec![10000]);
}

#[test]
fn length_is_one_plus_days_of_each_year() {
    let values = generate(BASE_VALUE, &vec![12345], date(2021, 3, 15)).unwrap();
    assert_eq!(values.len(), 1 + 365);
    assert_eq!(values[0], BASE_VALUE);
    assert_eq!(values[1], 10003);
    assert_eq!(values[100], 10338);
    assert_eq!(values[365], 11235);
    let twelve = generate(BASE_VALUE, &[vec![7250, 7000], vec![6500; 10]].concat(), date(2023, 12, 1)).unwrap();
    assert_eq!(twelve.len(), 1 + 4383);
    assert_eq!(twelve[twelve.len() - 1], 21541);
}

#[test]
fn generation_is_deterministic() {
    let first = generate(BASE_VALUE, &vec![7250, 7000, 6800], date(2022, 5, 31));
    let second = generate(BASE_VALUE, &vec![7250, 7000, 6800], date(2022, 5, 31));
    assert_eq!(first, second);
}

#[test]
fn leap_day_start_rolls_forward_to_first_of_march() {
    // 2024-02-29 to 2025-03-01 is one year of 366 days
    let one = generate(BASE_VALUE, &vec![7000], date(2024, 2, 29)).unwrap();
    assert_eq!(one.len(), 1 + 366);
    assert_eq!(one[366], 10700);
    // 2024-02-29, 2025-03-01, 2026-03-01, 2027-03-01, 2028-02-29: 1461 days in four years
    let four = generate(BASE_VALUE, &vec![7000; 4], date(2024, 2, 29)).unwrap();
    assert_eq!(four.len(), 1 + 1461);
    assert_eq!(four[1461], 13108);
}

#[test]
fn years_past_the_last_representable_give_no_series() {
    assert_eq!(generate(BASE_VALUE, &vec![7000], date(262142, 6, 1)), None);
}

#[test]
fn halves_round_away_from_zero() {
    // one day of 0.01825 a year on 100.00 over 365 days is exactly half a cent
    let values = generate(BASE_VALUE, &vec![1825], date(2023, 1, 1)).unwrap();
    assert_eq!(values[1], 10001);
    let negative = generate(-BASE_VALUE, &vec![1825], date(2023, 1, 1)).unwrap();
    assert_eq!(negative[1], -10001);
    let falling = generate(-BASE_VALUE, &vec![36500], date(2023, 1, 1)).unwrap();
    assert_eq!(falling[1], -10010);
}

#[test]
fn oversized_values_give_no_series() {
    assert_eq!(generate(i64::MAX, &vec![100000], date(2023, 1, 1)), None);
}

#[test]
fn dates_reject_impossible_days() {
    assert!(Date::new(2023, 2, 29).is_none());
    assert!(Date::new(2024, 2, 29).is_some());
    assert!(Date::new(1900, 2, 29).is_none());
    assert!(Date::new(2000, 2, 29).is_some());
    assert!(Date::new(2023, 13, 1).is_none());
    assert!(Date::new(2023, 4, 31).is_none());
}
