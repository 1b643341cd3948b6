use check_ru::app::weekday_names;
use check_ru::display::{
    box_bottom, box_row, box_top, calories_text, colorize, daily_colors_ok, daily_menu_lines,
    meal_box, meal_panel_rows, panel_title,
    meal_rows, MealRowKind,
};
use check_ru::fetcher::meal_from_decoded;
use check_ru::menu::{DayMenu, MenuData};
use check_ru::theme::{AppTheme, ThemeColor};

#[test]
fn colour_codes() {
    assert_eq!(colorize("x", ThemeColor::Red), "\x1b[31mx\x1b[0m");
    assert_eq!(colorize("x", ThemeColor::Rgb(1, 22, 255)), "\x1b[38;2;1;22;255mx\x1b[0m");
    assert_eq!(colorize("", ThemeColor::Reset), "\x1b[0m\x1b[0m");
    assert_eq!(colorize("y", ThemeColor::White), "\x1b[97my\x1b[0m");
}

#[test]
fn meal_rows_skip_empty_parts() {
    let m = meal_from_decoded("Arroz, Feijão<br>Frango<br>x<br>Pudim<br>Pão", 700, "A");
    let rows = meal_rows(&m);
    let kinds: Vec<MealRowKind> = rows.iter().map(|r| r.kind).collect();
    assert_eq!(
        kinds,
        vec![
            MealRowKind::Opcoes,
            MealRowKind::Guarnicao,
            MealRowKind::Acompanhamento,
            MealRowKind::Sobremesa,
            MealRowKind::Outros
        ]
    );
    assert_eq!(rows[0].label, "Opções");
    assert_eq!(rows[0].value, "Arroz, Feijão");
    assert_eq!(rows[4].value, "Pão");
}

#[test]
fn box_borders_and_rows() {
    let plain = ThemeColor::Reset;
    let top = box_top("── ALMOÇO ", plain);
    assert_eq!(top, format!("\x1b[0m┌── ALMOÇO {}┐\x1b[0m", "─".repeat(58)));
    assert_eq!(box_bottom(plain), format!("\x1b[0m└{}┘\x1b[0m", "─".repeat(68)));
    let row = box_row("Salada", "Alface", plain, plain);
    let expected = format!(
        "\x1b[0m│\x1b[0m  \x1b[0mSalada: \x1b[0mAlface{}  \x1b[0m│\x1b[0m",
        " ".repeat(64 - 8 - 6)
    );
    assert_eq!(row, expected);
    let long = "x".repeat(80);
    let row = box_row("Outros", &long, plain, plain);
    assert!(row.contains(&format!("{}...", "x".repeat(53))));
    let row = box_row("", "Sem cardápio cadastrado", plain, plain);
    assert!(row.starts_with("\x1b[0m│\x1b[0m  \x1b[0m\x1b[0mSem cardápio cadastrado"));
}

#[test]
fn meal_box_lines() {
    let t = AppTheme::dark();
    let m = meal_from_decoded("Arroz<br>Frango", 650, "A");
    let lines = meal_box("ALMOÇO", Some(&m), &t);
    assert_eq!(lines.len(), 5);
    assert!(lines[3].contains("650 kcal"));
    let lines = meal_box("JANTAR", None, &t);
    assert_eq!(lines.len(), 3);
    assert!(lines[1].contains("Sem cardápio cadastrado"));
}

#[test]
fn daily_menu_text() {
    let t = AppTheme::dark();
    let mut menu = MenuData::empty();
    menu.days.push(DayMenu {
        date: "10/03".to_string(),
        weekday: 1,
        almoco: Some(meal_from_decoded("Arroz<br>Frango", 650, "A")),
        jantar: None,
    });
    assert!(daily_colors_ok(&menu, &t, 0));
    let lines = daily_menu_lines(&menu, &t, 0);
    assert_eq!(lines[0], "");
    assert!(lines[2].contains("Restaurante USP"));
    assert!(lines[5].contains(&format!("{} (10/03)", weekday_names()[0])));
    assert_eq!(lines.len(), 4 + 3 + 5 + 3);
    let lines = daily_menu_lines(&menu, &t, 3);
    assert_eq!(lines.len(), 5);
    assert!(lines[4].contains("Dados do cardápio não encontrados para hoje."));
    let lines = daily_menu_lines(&menu, &t, 12);
    assert_eq!(lines.len(), 15);
}

#[test]
fn daily_menu_finds_today_by_weekday_in_a_week_with_gaps() {
    let t = AppTheme::dark();
    let mut menu = MenuData::empty();
    menu.days.push(DayMenu {
        date: "10/03".to_string(),
        weekday: 1,
        almoco: None,
        jantar: None,
    });
    menu.days.push(DayMenu {
        date: "12/03".to_string(),
        weekday: 3,
        almoco: Some(meal_from_decoded("Arroz<br>Frango", 650, "A")),
        jantar: None,
    });
    assert!(menu.get_day(3).is_some());
    assert!(daily_colors_ok(&menu, &t, 2));
    let lines = daily_menu_lines(&menu, &t, 2);
    assert_eq!(lines.len(), 4 + 3 + 5 + 3);
    assert!(lines[5].contains(&format!("{} (12/03)", weekday_names()[2])));
    assert!(!lines.iter().any(|l| l.contains("Dados do cardápio não encontrados")));
    let lines = daily_menu_lines(&menu, &t, 1);
    assert_eq!(lines.len(), 5);
    assert!(lines[4].contains("Dados do cardápio não encontrados para hoje."));
}

#[test]
fn daily_colours_checked() {
    let mut t = AppTheme::dark();
    let menu = MenuData::empty();
    t.error = "#12".to_string();
    assert!(!daily_colors_ok(&menu, &t, 0));
    t.error = "red".to_string();
    assert!(daily_colors_ok(&menu, &t, 0));
}

fn visible(s: &str) -> String {
    let mut out = String::new();
    let mut chars = s.chars().peekable();
    while let Some(c) = chars.next() {
        if c == '\x1b' {
            for d in chars.by_ref() {
                if d == 'm' {
                    break;
                }
            }
        } else {
            out.push(c);
        }
    }
    out
}

#[test]
fn box_rows_are_seventy_columns_wide() {
    let plain = ThemeColor::Rgb(1, 2, 3);
    for (label, value) in [("Salada", "Alface"), ("Opções", &"y".repeat(200)[..]), ("", "z"), ("Guarnição PVT", "")] {
        assert_eq!(visible(&box_row(label, value, plain, plain)).chars().count(), 70);
    }
    assert_eq!(visible(&box_top("── JANTAR ", plain)).chars().count(), 70);
    assert_eq!(visible(&box_bottom(plain)).chars().count(), 70);
}

#[test]
fn meal_panel_text() {
    let m = meal_from_decoded("Arroz, Feijão<br>Frango grelhado com ervas<br>x<br>Pudim", 700, "A");
    let rows = meal_panel_rows(&m, 20, 0);
    assert!(rows.len() >= 2);
    assert_eq!(rows[0].label_text, "Opções: ");
    // 20 columns less the 8 of the label leave 12 for the 13 characters.
    assert_eq!(rows[0].shown, "Arroz, Feijã");
    assert_eq!(rows[1].label_text, "Guarnição: ");
    // 20 columns less the 11 of the label leave 9 for the value.
    assert_eq!(rows[1].shown, "Frango gr");
    let later = meal_panel_rows(&m, 20, 16);
    assert_eq!(later[1].shown, "rango gre");
    assert_eq!(panel_title("ALMOÇO", Some("10/03")), "ALMOÇO (10/03)");
    assert_eq!(panel_title("JANTAR", None), "JANTAR");
    assert_eq!(calories_text(700), "700");
}
