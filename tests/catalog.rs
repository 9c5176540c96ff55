use bonds::calendar::Date;
use bonds::catalog::BondsService;
use bonds::continuity::validate_continuity;
use bonds::model::{AllBonds, Bond, BondId};

fn date(y: i32, m: u32, d: u32) -> Date {
    Date::new(y, m, d).unwrap()
}

fn bond(id: &str, start: Date, end: Date) -> Bond {
    Bond {
        id: BondId::new(id),
        initial_date: start,
        sale_end: end,
        buyout_date: Date::new(start.year + 10, start.month, start.day).unwrap(),
        values: vec![10000],
    }
}

#[test]
fn adjacent_windows_pass_continuity() {
    let a = bond("EDO1222", date(2022, 12, 1), date(2022, 12, 31));
    let b = bond("EDO0123", date(2023, 1, 1), date(2023, 1, 31));
    assert!(validate_continuity(&vec![b, a]).is_ok());
}

#[test]
fn a_gap_fails_continuity_naming_both() {
    let a = bond("EDO1222", date(2022, 12, 1), date(2022, 12, 31));
    let b = bond("EDO0123", date(2023, 1, 2), date(2023, 1, 31));
    let e = validate_continuity(&vec![b, a]).unwrap_err();
    assert_eq!(e.first.as_str(), "EDO1222");
    assert_eq!(e.second.as_str(), "EDO0123");
    assert_eq!(e.sale_end, date(2022, 12, 31));
    assert_eq!(e.next_start, date(2023, 1, 2));
}

#[test]
fn an_overlap_fails_continuity() {
    let a = bond("EDO1222", date(2022, 12, 1), date(2023, 1, 1));
    let b = bond("EDO0123", date(2023, 1, 1), date(2023, 1, 31));
    let e = validate_continuity(&vec![a, b]).unwrap_err();
    assert_eq!(e.first.as_str(), "EDO1222");
    assert_eq!(e.second.as_str(), "EDO0123");
}

#[test]
fn continuity_checks_the_whole_sorted_chain() {
    let a = bond("A", date(2022, 1, 1), date(2022, 1, 31));
    let b = bond("B", date(2022, 2, 1), date(2022, 2, 28));
    let c = bond("C", date(2022, 3, 2), date(2022, 3, 31));
    let e = validate_continuity(&vec![c, a, b]).unwrap_err();
    assert_eq!(e.first.as_str(), "B");
    assert_eq!(e.second.as_str(), "C");
}

#[test]
fn empty_and_single_series_are_continuous() {
    assert!(validate_continuity(&vec![]).is_ok());
    assert!(validate_continuity(&vec![bond("A", date(2022, 1, 1), date(2022, 1, 31))]).is_ok());
}

fn catalog() -> BondsService {
    let all = AllBonds {
        edo: vec![
            bond("EDO0123", date(2023, 1, 1), date(2023, 1, 31)),
            bond("EDO1222", date(2022, 12, 1), date(2022, 12, 31)),
        ],
        rod: vec![
            bond("ROD1234", date(2022, 12, 1), date(2022, 12, 31)),
            bond("ROD0135", date(2023, 1, 1), date(2023, 1, 31)),
        ],
    };
    BondsService::new(all).unwrap()
}

#[test]
fn catalog_lists_ids_in_order() {
    let ids: Vec<String> = catalog().get_bonds().into_iter().map(|id| id.value()).collect();
    assert_eq!(ids, vec!["EDO0123", "EDO1222", "ROD0135", "ROD1234"]);
}

#[test]
fn catalog_finds_a_bond() {
    let c = catalog();
    let b = c.get_bond(&BondId::new("ROD0135")).unwrap();
    assert_eq!(b.initial_date, date(2023, 1, 1));
}

#[test]
fn unknown_id_is_absent_and_changes_nothing() {
    let c = catalog();
    assert!(c.get_bond(&BondId::new("UNKNOWN")).is_none());
    assert!(c.get_bond(&BondId::new("edo0123")).is_none());
    assert_eq!(c.get_bonds().len(), 4);
}

#[test]
fn catalog_with_a_gap_is_not_built() {
    let all = AllBonds {
        edo: vec![
            bond("EDO1222", date(2022, 12, 1), date(2022, 12, 31)),
            bond("EDO0123", date(2023, 1, 2), date(2023, 1, 31)),
        ],
        rod: vec![],
    };
    let e = BondsService::new(all).unwrap_err();
    assert_eq!(e.first.as_str(), "EDO1222");
}

#[test]
fn later_series_replaces_same_id() {
    let all = AllBonds {
        edo: vec![bond("X", date(2022, 12, 1), date(2022, 12, 31))],
        rod: vec![bond("X", date(2023, 1, 1), date(2023, 1, 31))],
    };
    let c = BondsService::new(all).unwrap();
    assert_eq!(c.get_bonds().len(), 1);
    assert_eq!(c.get_bond(&BondId::new("X")).unwrap().initial_date, date(2023, 1, 1));
}

#[test]
fn ids_are_ordered_by_character_code() {
    let all = AllBonds {
        edo: vec![
            bond("b1", date(2022, 1, 1), date(2022, 1, 31)),
            bond("B2", date(2022, 2, 1), date(2022, 2, 28)),
            bond("a3", date(2022, 3, 1), date(2022, 3, 31)),
            bond("a", date(2022, 4, 1), date(2022, 4, 30)),
        ],
        rod: vec![],
    };
    let ids: Vec<String> = BondsService::new(all).unwrap().get_bonds().into_iter().map(|id| id.value()).collect();
    assert_eq!(ids, vec!["B2", "a", "a3", "b1"]);
}

#[test]
fn the_earliest_gap_is_reported_whatever_the_input_order() {
    let a = bond("A", date(2022, 1, 1), date(2022, 1, 30));
    let b = bond("B", date(2022, 2, 1), date(2022, 2, 28));
    let c = bond("C", date(2022, 3, 2), date(2022, 3, 31));
    let e1 = validate_continuity(&vec![c.clone(), b.clone(), a.clone()]).unwrap_err();
    let e2 = validate_continuity(&vec![b, a, c]).unwrap_err();
    assert_eq!(e1.first.as_str(), "A");
    assert_eq!(e1.second.as_str(), "B");
    assert_eq!(e2.first.as_str(), "A");
    assert_eq!(e2.second.as_str(), "B");
}
