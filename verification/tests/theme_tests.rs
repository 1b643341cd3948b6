use check_ru::theme::{color_parses, parse_color, AppTheme, Config, ThemeColor};

#[test]
fn hex_colors() {
    assert_eq!(parse_color("#FF0080"), ThemeColor::Rgb(255, 0, 128));
    assert_eq!(parse_color("#00ffAA"), ThemeColor::Rgb(0, 255, 170));
    assert_eq!(parse_color("#+F+F+F"), ThemeColor::Rgb(15, 15, 15));
    assert_eq!(parse_color("#zz1122"), ThemeColor::Rgb(0, 17, 34));
    assert_eq!(parse_color("#123456789"), ThemeColor::Rgb(0x12, 0x34, 0x56));
    assert_eq!(parse_color("#ééé"), ThemeColor::Rgb(0, 0, 0));
}

#[test]
fn named_colors_in_any_case() {
    assert_eq!(parse_color("RED"), ThemeColor::Red);
    assert_eq!(parse_color("LightBlue"), ThemeColor::LightBlue);
    assert_eq!(parse_color("darkgray"), ThemeColor::DarkGray);
    assert_eq!(parse_color("white"), ThemeColor::White);
    assert_eq!(parse_color(" red"), ThemeColor::Reset);
    assert_eq!(parse_color("purple"), ThemeColor::Reset);
}

#[test]
fn colors_that_cannot_be_read() {
    assert!(!color_parses("#12345"));
    assert!(!color_parses("#"));
    assert!(!color_parses("#aé1234"));
    assert!(color_parses("#ééé"));
    assert!(color_parses("#123456"));
    assert!(color_parses("anything"));
}

#[test]
fn dark_theme_colors() {
    let t = AppTheme::dark();
    assert_eq!(t.name, "Dark");
    assert_eq!(t.background(), ThemeColor::Rgb(0, 0, 0));
    assert_eq!(t.foreground(), ThemeColor::Rgb(255, 255, 255));
    assert_eq!(t.primary(), ThemeColor::Rgb(0, 255, 255));
    assert_eq!(t.secondary(), ThemeColor::Rgb(0x44, 0x44, 0x44));
    assert_eq!(t.highlight(), ThemeColor::Rgb(255, 0, 255));
    assert_eq!(t.error(), ThemeColor::Rgb(255, 0, 0));
    assert_eq!(t.label_opcoes(), ThemeColor::Rgb(255, 255, 0));
    assert_eq!(t.label_guarnicao(), ThemeColor::Rgb(255, 0x55, 0x55));
    assert_eq!(t.label_pvt(), ThemeColor::Rgb(0x55, 255, 0x55));
    assert_eq!(t.label_acompanhamento(), ThemeColor::Rgb(0x55, 0x55, 255));
    assert_eq!(t.label_salada(), ThemeColor::Rgb(0, 255, 0));
    assert_eq!(t.label_sobremesa(), ThemeColor::Rgb(255, 0x55, 255));
    assert_eq!(t.label_outros(), ThemeColor::Rgb(0xAA, 0xAA, 0xAA));
}

#[test]
fn presets_are_the_dark_theme() {
    let p = AppTheme::presets();
    assert_eq!(p.len(), 1);
    assert_eq!(p[0].name, "Dark");
    assert_eq!(p[0].background, "#000000");
}

#[test]
fn standard_config() {
    let c = Config::standard();
    assert_eq!(c.theme_name, "Dark");
    assert!(!c.daily_check);
    assert_eq!(c.unit_code, 13);
}

#[test]
fn hex_color_law_on_examples() {
    for (text, rgb) in [("#0a0B0c", (10, 11, 12)), ("#ffffff", (255, 255, 255)), ("#7F80FFzz", (127, 128, 255))] {
        assert!(color_parses(text));
        assert_eq!(parse_color(text), ThemeColor::Rgb(rgb.0, rgb.1, rgb.2));
    }
}
