use check_ru::app::{
    apply_marquee, collect_themes, get_current_theme, weekday_names, App, AppAction, KeyInput,
};
use check_ru::menu::MenuData;
use check_ru::theme::{AppTheme, Config};

fn theme(name: &str, bg: &str) -> AppTheme {
    let mut t = AppTheme::dark();
    t.name = name.to_string();
    t.background = bg.to_string();
    t
}

fn config(name: &str) -> Config {
    Config { theme_name: name.to_string(), daily_check: false, unit_code: 13 }
}

fn names(themes: &[AppTheme]) -> Vec<String> {
    themes.iter().map(|t| t.name.clone()).collect()
}

#[test]
fn themes_are_sorted_and_unique() {
    let found = vec![
        theme("Ocean", "#000001"),
        theme(" dark ", "#000002"),
        theme("matrix", "#000003"),
        theme("OCEAN", "#000004"),
        theme("Dark", "#000005"),
    ];
    let all = collect_themes(found);
    assert_eq!(names(&all), vec![" dark ", "matrix", "Ocean"]);
    assert_eq!(all[0].background, "#000002");
    assert_eq!(all[2].background, "#000001");
}

#[test]
fn no_themes_found_gives_presets() {
    let all = collect_themes(Vec::new());
    assert_eq!(names(&all), vec!["Dark"]);
}

#[test]
fn current_theme_by_name() {
    let all = collect_themes(vec![theme("Ocean", "#000001"), theme("Matrix", "#000002")]);
    assert_eq!(get_current_theme(&all, "  ocean ").name, "Ocean");
    assert_eq!(get_current_theme(&all, "missing").name, "Matrix");
}

#[test]
fn new_app_selects_configured_theme_and_today() {
    let app = App::new(
        MenuData::empty(),
        config("ocean"),
        vec![theme("Ocean", "#000001"), theme("Matrix", "#000002")],
        3,
    );
    assert_eq!(app.current_theme_idx, 1);
    assert_eq!(app.theme().name, "Ocean");
    assert_eq!(app.selected_day_idx, 3);
    assert_eq!(app.tick, 0);
    assert!(!app.show_help);
    assert_eq!(app.days, weekday_names());
    assert_eq!(app.days[1], "Terça");
    let app = App::new(MenuData::empty(), config("none"), Vec::new(), 9);
    assert_eq!(app.selected_day_idx, 0);
    assert_eq!(app.current_theme_idx, 0);
}

#[test]
fn day_navigation_wraps() {
    let mut app = App::new(MenuData::empty(), config("Dark"), Vec::new(), 6);
    app.tick = 5;
    app.next_day();
    assert_eq!(app.selected_day_idx, 0);
    assert_eq!(app.tick, 0);
    app.prev_day();
    assert_eq!(app.selected_day_idx, 6);
    app.prev_day();
    assert_eq!(app.selected_day_idx, 5);
    app.next_day();
    assert_eq!(app.selected_day_idx, 6);
}

#[test]
fn theme_cycle_and_saved_name() {
    let found = vec![theme("A", "#000001"), theme("B", "#000002"), theme("C", "#000003")];
    let mut app = App::new(MenuData::empty(), config("B"), found, 0);
    let start = app.current_theme_idx;
    assert_eq!(start, 1);
    app.next_theme();
    assert_eq!(app.theme().name, "C");
    assert_eq!(app.config.theme_name, "C");
    app.next_theme();
    assert_eq!(app.theme().name, "A");
    app.next_theme();
    assert_eq!(app.current_theme_idx, start);
    // Restarting with the saved settings selects the same theme.
    let saved = app.config.theme_name.clone();
    let again = App::new(
        MenuData::empty(),
        config(&saved),
        vec![theme("A", "#000001"), theme("B", "#000002"), theme("C", "#000003")],
        0,
    );
    assert_eq!(again.current_theme_idx, app.current_theme_idx);
}

#[test]
fn keys() {
    let mut app = App::new(MenuData::empty(), config("Dark"), Vec::new(), 2);
    assert_eq!(app.handle_key(KeyInput::Char('x')), AppAction::Continue);
    assert_eq!(app.handle_key(KeyInput::Right), AppAction::Continue);
    assert_eq!(app.selected_day_idx, 3);
    assert_eq!(app.handle_key(KeyInput::Left), AppAction::Continue);
    assert_eq!(app.selected_day_idx, 2);
    assert_eq!(app.handle_key(KeyInput::Tab), AppAction::ThemeChanged);
    assert_eq!(app.handle_key(KeyInput::Esc), AppAction::Continue);
    assert!(app.show_help);
    assert_eq!(app.handle_key(KeyInput::Right), AppAction::Continue);
    assert_eq!(app.selected_day_idx, 2);
    assert_eq!(app.handle_key(KeyInput::Tab), AppAction::Continue);
    assert_eq!(app.handle_key(KeyInput::Esc), AppAction::Continue);
    assert!(!app.show_help);
    assert_eq!(app.handle_key(KeyInput::Other), AppAction::Continue);
    assert_eq!(app.handle_key(KeyInput::Char('q')), AppAction::Quit);
}

#[test]
fn ticks() {
    let mut app = App::new(MenuData::empty(), config("Dark"), Vec::new(), 0);
    app.on_tick();
    app.on_tick();
    assert_eq!(app.tick, 2);
    app.tick = u64::MAX;
    app.on_tick();
    assert_eq!(app.tick, 0);
    app.toggle_help();
    app.toggle_help();
    assert!(!app.show_help);
}

#[test]
fn marquee_scrolls() {
    let v = "abcdefghij";
    assert_eq!(apply_marquee(v, 4, 0), "abcd");
    assert_eq!(apply_marquee(v, 4, 15), "abcd");
    assert_eq!(apply_marquee(v, 4, 16), "bcde");
    assert_eq!(apply_marquee(v, 4, 21), "ghij");
    assert_eq!(apply_marquee(v, 4, 35), "ghij");
    assert_eq!(apply_marquee(v, 4, 36), "abcd");
    assert_eq!(apply_marquee(v, 4, 37), "abcd");
    assert_eq!(apply_marquee("abc", 5, 99), "abc");
    assert_eq!(apply_marquee(v, 0, 99), v);
    assert_eq!(apply_marquee("Feijão com arroz", 5, 20), "o com");
    assert_eq!(apply_marquee("Feijão com arroz", 5, 19), "ão co");
}

#[test]
fn marquee_law_on_example() {
    let v = "Arroz, feijão e farofa";
    let avail = 7;
    let cycle = (v.chars().count() - avail) as u64 + 30;
    for t in 0..cycle {
        let a = apply_marquee(v, avail, t);
        assert_eq!(a.chars().count(), avail);
        assert_eq!(a, apply_marquee(v, avail, t + cycle));
    }
}

#[test]
fn app_offers_the_themes_collect_themes_gives() {
    let files = || {
        vec![
            theme("Ocean", "#000001"),
            theme("matrix", "#000003"),
            theme(" ocean", "#000004"),
            theme("Amber", "#000005"),
        ]
    };
    let listed = collect_themes(files());
    let app = App::new(MenuData::empty(), config("matrix"), files(), 0);
    assert_eq!(names(&listed), names(&app.all_themes));
    assert_eq!(names(&listed), vec!["Amber", "matrix", "Ocean"]);
    let backgrounds: Vec<String> = app.all_themes.iter().map(|t| t.background.clone()).collect();
    assert_eq!(backgrounds, vec!["#000005", "#000003", "#000001"]);
    let app = App::new(MenuData::empty(), config("x"), Vec::new(), 0);
    assert_eq!(names(&app.all_themes), names(&collect_themes(Vec::new())));
}

#[test]
fn tab_once_per_theme_comes_back() {
    let files = vec![theme("Ocean", "#1"), theme("Matrix", "#2"), theme("Amber", "#3")];
    let mut app = App::new(MenuData::empty(), config("matrix"), files, 0);
    let start = app.current_theme_idx;
    let n = app.all_themes.len();
    for _ in 0..n {
        app.next_theme();
    }
    assert_eq!(app.current_theme_idx, start);
    assert_eq!(app.config.theme_name, "Matrix");
}
