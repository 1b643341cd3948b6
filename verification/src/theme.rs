//! Colour themes and the application's settings.

use vstd::prelude::*;

use crate::text::{
    chars_before_byte, chars_of, digits_value, is_byte_boundary, is_radix_digit,
    lemma_utf8_len_increasing, lower_text, numeral_value, is_ascii_text, ascii_lowercase, parse_unsigned, parse_unsigned_seq,
    radix_digit_value, same_chars, scan_bytes, slice_chars, to_lower, unsigned_digits, utf8_len,
    utf8_width,
};

verus! {

/// A terminal colour, as a theme names it.
#[derive(Debug, Clone, Copy, PartialEq, Eq, Structural)]
pub enum ThemeColor {
    Rgb(u8, u8, u8),
    Reset,
    Black,
    Red,
    Green,
    Yellow,
    Blue,
    Magenta,
    Cyan,
    Gray,
    DarkGray,
    LightRed,
    LightGreen,
    LightYellow,
    LightBlue,
    LightMagenta,
    LightCyan,
    White,
}

/// A colour theme: its name and the colour of each part of the screen,
/// as `#rrggbb` or a colour name.
#[derive(Debug)]
pub struct AppTheme {
    pub name: String,
    pub background: String,
    pub foreground: String,
    pub primary: String,
    pub secondary: String,
    pub highlight: String,
    pub error: String,
    pub label_opcoes: String,
    pub label_guarnicao: String,
    pub label_pvt: String,
    pub label_acompanhamento: String,
    pub label_salada: String,
    pub label_sobremesa: String,
    pub label_outros: String,
}

/// The application's settings.
#[derive(Debug)]
pub struct Config {
    pub theme_name: String,
    pub daily_check: bool,
    pub unit_code: u32,
}

// ---------------------------------------------------------------------
// Colours
// ---------------------------------------------------------------------

/// A colour text that starts with `#` is read as hexadecimal pairs.
pub open spec fn is_hex_color(s: Seq<char>) -> bool {
    s.len() > 0 && s[0] == '#'
}

/// A colour can be read: a `#` colour must have bytes 1, 3, 5 and 7 at
/// character boundaries (the three byte pairs after `#` must exist).
pub open spec fn color_defined(s: Seq<char>) -> bool {
    is_hex_color(s) ==> (is_byte_boundary(s, 1) && is_byte_boundary(s, 3) && is_byte_boundary(
        s,
        5,
    ) && is_byte_boundary(s, 7))
}

/// The value of the two bytes of `s` starting at byte `from` read as a
/// hexadecimal `u8` (0 when they do not read as one).
pub open spec fn hex_pair_spec(s: Seq<char>, from: nat) -> u8 {
    let a = chars_before_byte(s, from);
    let b = chars_before_byte(s, from + 2);
    match parse_unsigned_seq(s.subrange(a as int, b as int), 16, 255) {
        Some(v) => v as u8,
        None => 0,
    }
}

/// The colour a (lowercased) colour name stands for; unknown names reset
/// the colour.
pub open spec fn named_color(n: Seq<char>) -> ThemeColor {
    if n == "black"@ {
        ThemeColor::Black
    } else if n == "red"@ {
        ThemeColor::Red
    } else if n == "green"@ {
        ThemeColor::Green
    } else if n == "yellow"@ {
        ThemeColor::Yellow
    } else if n == "blue"@ {
        ThemeColor::Blue
    } else if n == "magenta"@ {
        ThemeColor::Magenta
    } else if n == "cyan"@ {
        ThemeColor::Cyan
    } else if n == "gray"@ {
        ThemeColor::Gray
    } else if n == "darkgray"@ {
        ThemeColor::DarkGray
    } else if n == "lightred"@ {
        ThemeColor::LightRed
    } else if n == "lightgreen"@ {
        ThemeColor::LightGreen
    } else if n == "lightyellow"@ {
        ThemeColor::LightYellow
    } else if n == "lightblue"@ {
        ThemeColor::LightBlue
    } else if n == "lightmagenta"@ {
        ThemeColor::LightMagenta
    } else if n == "lightcyan"@ {
        ThemeColor::LightCyan
    } else if n == "white"@ {
        ThemeColor::White
    } else {
        ThemeColor::Reset
    }
}

/// The colour a theme's colour text stands for: `#rrggbb` gives the three
/// hexadecimal bytes, anything else is a colour name in any case.
pub open spec fn parse_color_spec(s: Seq<char>) -> ThemeColor {
    if is_hex_color(s) {
        ThemeColor::Rgb(hex_pair_spec(s, 1), hex_pair_spec(s, 3), hex_pair_spec(s, 5))
    } else {
        named_color(lower_text(s))
    }
}

/// Boundaries further into the text lie after more characters.
proof fn lemma_boundaries_ordered(s: Seq<char>, n: nat, m: nat)
    requires
        n < m,
        is_byte_boundary(s, n),
        is_byte_boundary(s, m),
    ensures
        chars_before_byte(s, n) < chars_before_byte(s, m) <= s.len(),
{
    let a = chars_before_byte(s, n) as int;
    let b = chars_before_byte(s, m) as int;
    assert(0 <= a <= s.len() && utf8_len(s.take(a)) == n);
    assert(0 <= b <= s.len() && utf8_len(s.take(b)) == m);
    if b < a {
        lemma_utf8_len_increasing(s, b, a);
    }
}

/// The number of characters before byte `n`, for a boundary `n`.
fn boundary_chars(v: &Vec<char>, n: usize) -> (k: usize)
    requires
        n <= 1_000_000,
        is_byte_boundary(v@, n as nat),
    ensures
        k == chars_before_byte(v@, n as nat),
{
    let scanned = scan_bytes(v, n);
    match scanned.1 {
        Some(k) => k,
        None => {
            assert(false);
            0
        },
    }
}

/// Whether the colour text can be read.
pub fn color_parses(color: &str) -> (r: bool)
    ensures
        r == color_defined(color@),
{
    let v = chars_of(color);
    if v.len() > 0 && v[0] == '#' {
        scan_bytes(&v, 1).1.is_some() && scan_bytes(&v, 3).1.is_some() && scan_bytes(
            &v,
            5,
        ).1.is_some() && scan_bytes(&v, 7).1.is_some()
    } else {
        true
    }
}

/// The colour named by a lowercased colour name.
fn named_color_of(n: &Vec<char>) -> (c: ThemeColor)
    ensures
        c == named_color(n@),
{
    if same_chars(n, &chars_of("black")) {
        ThemeColor::Black
    } else if same_chars(n, &chars_of("red")) {
        ThemeColor::Red
    } else if same_chars(n, &chars_of("green")) {
        ThemeColor::Green
    } else if same_chars(n, &chars_of("yellow")) {
        ThemeColor::Yellow
    } else if same_chars(n, &chars_of("blue")) {
        ThemeColor::Blue
    } else if same_chars(n, &chars_of("magenta")) {
        ThemeColor::Magenta
    } else if same_chars(n, &chars_of("cyan")) {
        ThemeColor::Cyan
    } else if same_chars(n, &chars_of("gray")) {
        ThemeColor::Gray
    } else if same_chars(n, &chars_of("darkgray")) {
        ThemeColor::DarkGray
    } else if same_chars(n, &chars_of("lightred")) {
        ThemeColor::LightRed
    } else if same_chars(n, &chars_of("lightgreen")) {
        ThemeColor::LightGreen
    } else if same_chars(n, &chars_of("lightyellow")) {
        ThemeColor::LightYellow
    } else if same_chars(n, &chars_of("lightblue")) {
        ThemeColor::LightBlue
    } else if same_chars(n, &chars_of("lightmagenta")) {
        ThemeColor::LightMagenta
    } else if same_chars(n, &chars_of("lightcyan")) {
        ThemeColor::LightCyan
    } else if same_chars(n, &chars_of("white")) {
        ThemeColor::White
    } else {
        ThemeColor::Reset
    }
}

/// The hexadecimal byte at characters `a..b`.
fn hex_pair(v: &Vec<char>, a: usize, b: usize) -> (r: u8)
    requires
        a <= b <= v@.len(),
    ensures
        r == (match parse_unsigned_seq(v@.subrange(a as int, b as int), 16, 255) {
            Some(x) => x as u8,
            None => 0u8,
        }),
{
    let piece = slice_chars(v, a, b);
    match parse_unsigned(&piece, 16, 255) {
        Some(x) => x as u8,
        None => 0,
    }
}

/// The colour a theme's colour text stands for.
pub fn parse_color(color: &str) -> (c: ThemeColor)
    requires
        color_defined(color@),
    ensures
        c == parse_color_spec(color@),
{
    let v = chars_of(color);
    if v.len() > 0 && v[0] == '#' {
        proof {
            lemma_boundaries_ordered(v@, 1, 3);
            lemma_boundaries_ordered(v@, 3, 5);
            lemma_boundaries_ordered(v@, 5, 7);
        }
        let k1 = boundary_chars(&v, 1);
        let k3 = boundary_chars(&v, 3);
        let k5 = boundary_chars(&v, 5);
        let k7 = boundary_chars(&v, 7);
        let r = hex_pair(&v, k1, k3);
        let g = hex_pair(&v, k3, k5);
        let b = hex_pair(&v, k5, k7);
        ThemeColor::Rgb(r, g, b)
    } else {
        let lower = to_lower(color);
        let n = chars_of(lower.as_str());
        named_color_of(&n)
    }
}

// ---------------------------------------------------------------------
// Themes
// ---------------------------------------------------------------------

/// `t` is the built-in dark theme.
pub open spec fn is_dark_theme(t: AppTheme) -> bool {
    &&& t.name@ == "Dark"@
    &&& t.background@ == "#000000"@
    &&& t.foreground@ == "#FFFFFF"@
    &&& t.primary@ == "#00FFFF"@
    &&& t.secondary@ == "#444444"@
    &&& t.highlight@ == "#FF00FF"@
    &&& t.error@ == "#FF0000"@
    &&& t.label_opcoes@ == "#FFFF00"@
    &&& t.label_guarnicao@ == "#FF5555"@
    &&& t.label_pvt@ == "#55FF55"@
    &&& t.label_acompanhamento@ == "#5555FF"@
    &&& t.label_salada@ == "#00FF00"@
    &&& t.label_sobremesa@ == "#FF55FF"@
    &&& t.label_outros@ == "#AAAAAA"@
}

impl AppTheme {
    /// The themes built into the application: the dark theme alone.
    pub fn presets() -> (r: Vec<AppTheme>)
        ensures
            r@.len() == 1,
            is_dark_theme(r@[0]),
    {
        let mut r: Vec<AppTheme> = Vec::new();
        r.push(AppTheme::dark());
        r
    }

    /// The built-in dark theme.
    pub fn dark() -> (r: AppTheme)
        ensures
            is_dark_theme(r),
    {
        AppTheme {
            name: String::from_str("Dark"),
            background: String::from_str("#000000"),
            foreground: String::from_str("#FFFFFF"),
            primary: String::from_str("#00FFFF"),
            secondary: String::from_str("#444444"),
            highlight: String::from_str("#FF00FF"),
            error: String::from_str("#FF0000"),
            label_opcoes: String::from_str("#FFFF00"),
            label_guarnicao: String::from_str("#FF5555"),
            label_pvt: String::from_str("#55FF55"),
            label_acompanhamento: String::from_str("#5555FF"),
            label_salada: String::from_str("#00FF00"),
            label_sobremesa: String::from_str("#FF55FF"),
            label_outros: String::from_str("#AAAAAA"),
        }
    }

    /// A copy of this theme.
    pub fn duplicate(&self) -> (r: AppTheme)
        ensures
            r == *self,
    {
        AppTheme {
            name: self.name.clone(),
            background: self.background.clone(),
            foreground: self.foreground.clone(),
            primary: self.primary.clone(),
            secondary: self.secondary.clone(),
            highlight: self.highlight.clone(),
            error: self.error.clone(),
            label_opcoes: self.label_opcoes.clone(),
            label_guarnicao: self.label_guarnicao.clone(),
            label_pvt: self.label_pvt.clone(),
            label_acompanhamento: self.label_acompanhamento.clone(),
            label_salada: self.label_salada.clone(),
            label_sobremesa: self.label_sobremesa.clone(),
            label_outros: self.label_outros.clone(),
        }
    }

    /// The background colour.
    pub fn background(&self) -> (c: ThemeColor)
        requires
            color_defined(self.background@),
        ensures
            c == parse_color_spec(self.background@),
    {
        parse_color(self.background.as_str())
    }

    /// The text colour.
    pub fn foreground(&self) -> (c: ThemeColor)
        requires
            color_defined(self.foreground@),
        ensures
            c == parse_color_spec(self.foreground@),
    {
        parse_color(self.foreground.as_str())
    }

    /// The colour of borders and selected tabs.
    pub fn primary(&self) -> (c: ThemeColor)
        requires
            color_defined(self.primary@),
        ensures
            c == parse_color_spec(self.primary@),
    {
        parse_color(self.primary.as_str())
    }

    /// The colour of secondary text.
    pub fn secondary(&self) -> (c: ThemeColor)
        requires
            color_defined(self.secondary@),
        ensures
            c == parse_color_spec(self.secondary@),
    {
        parse_color(self.secondary.as_str())
    }

    /// The colour of highlighted labels.
    pub fn highlight(&self) -> (c: ThemeColor)
        requires
            color_defined(self.highlight@),
        ensures
            c == parse_color_spec(self.highlight@),
    {
        parse_color(self.highlight.as_str())
    }

    /// The colour of error messages.
    pub fn error(&self) -> (c: ThemeColor)
        requires
            color_defined(self.error@),
        ensures
            c == parse_color_spec(self.error@),
    {
        parse_color(self.error.as_str())
    }

    /// The colour of the options label.
    pub fn label_opcoes(&self) -> (c: ThemeColor)
        requires
            color_defined(self.label_opcoes@),
        ensures
            c == parse_color_spec(self.label_opcoes@),
    {
        parse_color(self.label_opcoes.as_str())
    }

    /// The colour of the side-dish label.
    pub fn label_guarnicao(&self) -> (c: ThemeColor)
        requires
            color_defined(self.label_guarnicao@),
        ensures
            c == parse_color_spec(self.label_guarnicao@),
    {
        parse_color(self.label_guarnicao.as_str())
    }

    /// The colour of the side-dish option label.
    pub fn label_pvt(&self) -> (c: ThemeColor)
        requires
            color_defined(self.label_pvt@),
        ensures
            c == parse_color_spec(self.label_pvt@),
    {
        parse_color(self.label_pvt.as_str())
    }

    /// The colour of the accompaniment label.
    pub fn label_acompanhamento(&self) -> (c: ThemeColor)
        requires
            color_defined(self.label_acompanhamento@),
        ensures
            c == parse_color_spec(self.label_acompanhamento@),
    {
        parse_color(self.label_acompanhamento.as_str())
    }

    /// The colour of the salad label.
    pub fn label_salada(&self) -> (c: ThemeColor)
        requires
            color_defined(self.label_salada@),
        ensures
            c == parse_color_spec(self.label_salada@),
    {
        parse_color(self.label_salada.as_str())
    }

    /// The colour of the dessert label.
    pub fn label_sobremesa(&self) -> (c: ThemeColor)
        requires
            color_defined(self.label_sobremesa@),
        ensures
            c == parse_color_spec(self.label_sobremesa@),
    {
        parse_color(self.label_sobremesa.as_str())
    }

    /// The colour of the other-items label.
    pub fn label_outros(&self) -> (c: ThemeColor)
        requires
            color_defined(self.label_outros@),
        ensures
            c == parse_color_spec(self.label_outros@),
    {
        parse_color(self.label_outros.as_str())
    }
}

impl Config {
    /// The settings used when none can be read: the dark theme, the
    /// interface rather than the daily print, restaurant 13.
    pub fn standard() -> (r: Config)
        ensures
            r.theme_name@ == "Dark"@,
            !r.daily_check,
            r.unit_code == 13,
    {
        Config { theme_name: String::from_str("Dark"), daily_check: false, unit_code: 13 }
    }
}

// ---------------------------------------------------------------------
// Laws of colours
// ---------------------------------------------------------------------

proof fn lemma_ascii_prefix_bytes(s: Seq<char>, k: int)
    requires
        0 <= k <= s.len(),
        forall|i: int| 0 <= i < k ==> (s[i] as u32) < 0x80,
    ensures
        utf8_len(s.take(k)) == k,
    decreases k,
{
    if k > 0 {
        assert(s.take(k).drop_last() == s.take(k - 1));
        lemma_ascii_prefix_bytes(s, k - 1);
        assert(utf8_width(s[k - 1]) == 1);
    }
}

proof fn lemma_ascii_boundary(s: Seq<char>, n: nat)
    requires
        n <= s.len(),
        forall|i: int| 0 <= i < n ==> (s[i] as u32) < 0x80,
    ensures
        is_byte_boundary(s, n),
        chars_before_byte(s, n) == n,
{
    lemma_ascii_prefix_bytes(s, n as int);
    assert(utf8_len(s.take(n as int)) == n);
    let k = chars_before_byte(s, n) as int;
    if k < n {
        lemma_utf8_len_increasing(s, k, n as int);
    } else if k > n {
        lemma_utf8_len_increasing(s, n as int, k);
    }
}

proof fn lemma_hex_digit_ascii(c: char)
    requires
        is_radix_digit(c, 16),
    ensures
        (c as u32) < 0x80,
        c != '+',
        radix_digit_value(c) < 16,
{
}

proof fn lemma_hex_pair_value(p: Seq<char>)
    requires
        p.len() == 2,
        is_radix_digit(p[0], 16),
        is_radix_digit(p[1], 16),
    ensures
        parse_unsigned_seq(p, 16, 255) == Some(
            (16 * radix_digit_value(p[0]) + radix_digit_value(p[1])) as u32,
        ),
{
    lemma_hex_digit_ascii(p[0]);
    lemma_hex_digit_ascii(p[1]);
    assert(unsigned_digits(p) == p);
    assert(p.drop_last().drop_last() =~= Seq::<char>::empty());
    assert(p.drop_last()[0] == p[0]);
    assert(p.drop_last().last() == p[0]);
    assert(digits_value(Seq::<char>::empty(), 16) == 0);
    assert(digits_value(p.drop_last().drop_last(), 16) == 0);
    assert(digits_value(p.drop_last(), 16) == radix_digit_value(p[0]));
    assert(digits_value(p, 16) == 16 * radix_digit_value(p[0]) + radix_digit_value(p[1]));
}

/// A colour written `#` and six hexadecimal digits is the colour with
/// those three bytes.
pub proof fn lemma_hex_color(s: Seq<char>)
    requires
        s.len() >= 7,
        s[0] == '#',
        forall|i: int| 1 <= i < 7 ==> is_radix_digit(#[trigger] s[i], 16),
    ensures
        color_defined(s),
        parse_color_spec(s) == ThemeColor::Rgb(
            (16 * radix_digit_value(s[1]) + radix_digit_value(s[2])) as u8,
            (16 * radix_digit_value(s[3]) + radix_digit_value(s[4])) as u8,
            (16 * radix_digit_value(s[5]) + radix_digit_value(s[6])) as u8,
        ),
{
    assert forall|i: int| 0 <= i < 7 implies (#[trigger] s[i] as u32) < 0x80 by {
        if i > 0 {
            lemma_hex_digit_ascii(s[i]);
        }
    }
    lemma_ascii_boundary(s, 1);
    lemma_ascii_boundary(s, 3);
    lemma_ascii_boundary(s, 5);
    lemma_ascii_boundary(s, 7);
    lemma_hex_pair_value(s.subrange(1, 3));
    lemma_hex_pair_value(s.subrange(3, 5));
    lemma_hex_pair_value(s.subrange(5, 7));
}

/// The name, in lower case, of each named colour (none for a `#` colour
/// or the reset colour).
pub open spec fn color_name(c: ThemeColor) -> Option<Seq<char>> {
    match c {
        ThemeColor::Black => Some("black"@),
        ThemeColor::Red => Some("red"@),
        ThemeColor::Green => Some("green"@),
        ThemeColor::Yellow => Some("yellow"@),
        ThemeColor::Blue => Some("blue"@),
        ThemeColor::Magenta => Some("magenta"@),
        ThemeColor::Cyan => Some("cyan"@),
        ThemeColor::Gray => Some("gray"@),
        ThemeColor::DarkGray => Some("darkgray"@),
        ThemeColor::LightRed => Some("lightred"@),
        ThemeColor::LightGreen => Some("lightgreen"@),
        ThemeColor::LightYellow => Some("lightyellow"@),
        ThemeColor::LightBlue => Some("lightblue"@),
        ThemeColor::LightMagenta => Some("lightmagenta"@),
        ThemeColor::LightCyan => Some("lightcyan"@),
        ThemeColor::White => Some("white"@),
        _ => None,
    }
}

/// Every colour name, written in any case, gives the colour it names: a
/// text whose lower case is the name of colour `c` is read as `c` (so
/// `gray` gives Gray, and `darkgray` the different DarkGray).
pub proof fn lemma_color_names(s: Seq<char>, c: ThemeColor)
    requires
        is_ascii_text(s),
        color_name(c) == Some(ascii_lowercase(s)),
    ensures
        parse_color_spec(s) == c,
{
    reveal_strlit("black");
    reveal_strlit("red");
    reveal_strlit("green");
    reveal_strlit("yellow");
    reveal_strlit("blue");
    reveal_strlit("magenta");
    reveal_strlit("cyan");
    reveal_strlit("gray");
    reveal_strlit("darkgray");
    reveal_strlit("lightred");
    reveal_strlit("lightgreen");
    reveal_strlit("lightyellow");
    reveal_strlit("lightblue");
    reveal_strlit("lightmagenta");
    reveal_strlit("lightcyan");
    reveal_strlit("white");
    let n = ascii_lowercase(s);
    assert(n.len() > 0);
    assert(n[0] != '#');
    assert(!is_hex_color(s));
    assert(lower_text(s) == n);
    match c {
        ThemeColor::Black => {
            assert(named_color("black"@) == ThemeColor::Black);
        },
        ThemeColor::Red => {
            assert(named_color("red"@) == ThemeColor::Red);
        },
        ThemeColor::Green => {
            assert(named_color("green"@) == ThemeColor::Green);
        },
        ThemeColor::Yellow => {
            assert(named_color("yellow"@) == ThemeColor::Yellow);
        },
        ThemeColor::Blue => {
            assert(named_color("blue"@) == ThemeColor::Blue);
        },
        ThemeColor::Magenta => {
            assert(named_color("magenta"@) == ThemeColor::Magenta);
        },
        ThemeColor::Cyan => {
            assert(named_color("cyan"@) == ThemeColor::Cyan);
        },
        ThemeColor::Gray => {
            assert(named_color("gray"@) == ThemeColor::Gray);
        },
        ThemeColor::DarkGray => {
            assert(named_color("darkgray"@) == ThemeColor::DarkGray);
        },
        ThemeColor::LightRed => {
            assert(named_color("lightred"@) == ThemeColor::LightRed);
        },
        ThemeColor::LightGreen => {
            assert(named_color("lightgreen"@) == ThemeColor::LightGreen);
        },
        ThemeColor::LightYellow => {
            assert(named_color("lightyellow"@) == ThemeColor::LightYellow);
        },
        ThemeColor::LightBlue => {
            assert(named_color("lightblue"@) == ThemeColor::LightBlue);
        },
        ThemeColor::LightMagenta => {
            assert(named_color("lightmagenta"@) == ThemeColor::LightMagenta);
        },
        ThemeColor::LightCyan => {
            assert("lightcyan"@ != "lightblue"@) by {
                assert("lightcyan"@[5] != "lightblue"@[5]);
            }
            assert(named_color("lightcyan"@) == ThemeColor::LightCyan);
        },
        ThemeColor::White => {
            assert(named_color("white"@) == ThemeColor::White);
        },
        _ => {},
    }
}

} // verus!
