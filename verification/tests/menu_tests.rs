use check_ru::fetcher::meal_from_decoded;
use check_ru::menu::{DayMenu, MenuData};

#[test]
fn empty_menu() {
    let m = MenuData::empty();
    assert_eq!(m.restaurant_name, "Restaurante USP");
    assert!(m.days.is_empty());
}

#[test]
fn get_day_finds_first_match() {
    let mut m = MenuData::empty();
    m.days.push(DayMenu { date: "a".to_string(), weekday: 3, almoco: None, jantar: None });
    m.days.push(DayMenu {
        date: "b".to_string(),
        weekday: 1,
        almoco: Some(meal_from_decoded("Arroz", 1, "A")),
        jantar: None,
    });
    m.days.push(DayMenu { date: "c".to_string(), weekday: 1, almoco: None, jantar: None });
    let d = m.get_day(1).unwrap();
    assert_eq!(d.date, "b");
    assert_eq!(d.almoco.unwrap().opcoes, vec!["Arroz".to_string()]);
    assert!(m.get_day(2).is_none());
    assert!(m.get_day(usize::MAX).is_none());
}
