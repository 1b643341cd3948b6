//! What the program shows: terminal colour codes, the rows of a meal, and
//! the boxed text of the daily menu printed to the console.

use vstd::prelude::*;

use crate::menu::{day_position, find_day_index, DayMenu, Meal, MealView, MenuData, MenuDataView};
use crate::app::marquee_spec;
use crate::text::{chars_of, decimal, decimal_string, join, join_seq, string_of, string_views};
use crate::theme::{color_defined, color_parses, parse_color_spec, AppTheme, ThemeColor};

verus! {

// ---------------------------------------------------------------------
// Colour codes
// ---------------------------------------------------------------------

/// The escape sequence that selects a colour for the text that follows.
pub open spec fn ansi_code(c: ThemeColor) -> Seq<char> {
    match c {
        ThemeColor::Rgb(r, g, b) => "\x1b[38;2;"@ + decimal(r as nat) + ";"@ + decimal(g as nat)
            + ";"@ + decimal(b as nat) + "m"@,
        ThemeColor::Reset => "\x1b[0m"@,
        ThemeColor::Black => "\x1b[30m"@,
        ThemeColor::Red => "\x1b[31m"@,
        ThemeColor::Green => "\x1b[32m"@,
        ThemeColor::Yellow => "\x1b[33m"@,
        ThemeColor::Blue => "\x1b[34m"@,
        ThemeColor::Magenta => "\x1b[35m"@,
        ThemeColor::Cyan => "\x1b[36m"@,
        ThemeColor::Gray => "\x1b[37m"@,
        ThemeColor::DarkGray => "\x1b[90m"@,
        ThemeColor::LightRed => "\x1b[91m"@,
        ThemeColor::LightGreen => "\x1b[92m"@,
        ThemeColor::LightYellow => "\x1b[93m"@,
        ThemeColor::LightBlue => "\x1b[94m"@,
        ThemeColor::LightMagenta => "\x1b[95m"@,
        ThemeColor::LightCyan => "\x1b[96m"@,
        ThemeColor::White => "\x1b[97m"@,
    }
}

/// The escape sequence that selects a colour.
pub fn ansi_prefix(c: ThemeColor) -> (r: String)
    ensures
        r@ == ansi_code(c),
{
    match c {
        ThemeColor::Rgb(r, g, b) => {
            let mut s = String::from_str("\x1b[38;2;");
            s.append(decimal_string(r as u64).as_str());
            s.append(";");
            s.append(decimal_string(g as u64).as_str());
            s.append(";");
            s.append(decimal_string(b as u64).as_str());
            s.append("m");
            s
        },
        ThemeColor::Reset => String::from_str("\x1b[0m"),
        ThemeColor::Black => String::from_str("\x1b[30m"),
        ThemeColor::Red => String::from_str("\x1b[31m"),
        ThemeColor::Green => String::from_str("\x1b[32m"),
        ThemeColor::Yellow => String::from_str("\x1b[33m"),
        ThemeColor::Blue => String::from_str("\x1b[34m"),
        ThemeColor::Magenta => String::from_str("\x1b[35m"),
        ThemeColor::Cyan => String::from_str("\x1b[36m"),
        ThemeColor::Gray => String::from_str("\x1b[37m"),
        ThemeColor::DarkGray => String::from_str("\x1b[90m"),
        ThemeColor::LightRed => String::from_str("\x1b[91m"),
        ThemeColor::LightGreen => String::from_str("\x1b[92m"),
        ThemeColor::LightYellow => String::from_str("\x1b[93m"),
        ThemeColor::LightBlue => String::from_str("\x1b[94m"),
        ThemeColor::LightMagenta => String::from_str("\x1b[95m"),
        ThemeColor::LightCyan => String::from_str("\x1b[96m"),
        ThemeColor::White => String::from_str("\x1b[97m"),
    }
}

/// `text` in colour `c`, the colour reset after it.
pub open spec fn colorize_spec(text: Seq<char>, c: ThemeColor) -> Seq<char> {
    ansi_code(c) + text + "\x1b[0m"@
}

/// `text` in colour `c`, the colour reset after it.
pub fn colorize(text: &str, c: ThemeColor) -> (r: String)
    ensures
        r@ == colorize_spec(text@, c),
{
    let mut r = ansi_prefix(c);
    r.append(text);
    r.append("\x1b[0m");
    r
}

// ---------------------------------------------------------------------
// Rows of a meal
// ---------------------------------------------------------------------

/// Which part of a meal a row shows.
#[derive(Debug, Clone, Copy, PartialEq, Eq, Structural)]
pub enum MealRowKind {
    Opcoes,
    Guarnicao,
    GuarnicaoPvt,
    Acompanhamento,
    Salada,
    Sobremesa,
    Outros,
}

/// A labelled row of a meal.
#[derive(Debug)]
pub struct MealRow {
    pub kind: MealRowKind,
    pub label: String,
    pub value: String,
}

/// A value is shown when it is neither empty nor `[]`.
pub open spec fn is_shown(value: Seq<char>) -> bool {
    value.len() > 0 && value != "[]"@
}

/// The labelled parts of a meal, in display order: lists are joined with
/// `, `.
pub open spec fn meal_parts(m: MealView) -> Seq<(MealRowKind, Seq<char>, Seq<char>)> {
    seq![
        (MealRowKind::Opcoes, "Opções"@, join_seq(m.opcoes, ", "@)),
        (MealRowKind::Guarnicao, "Guarnição"@, m.guarnicao),
        (MealRowKind::GuarnicaoPvt, "Guarnição PVT"@, m.guarnicao_pvt),
        (MealRowKind::Acompanhamento, "Acompanhamento"@, m.acompanhamento),
        (MealRowKind::Salada, "Salada"@, m.salada),
        (MealRowKind::Sobremesa, "Sobremesa"@, m.sobremesa),
        (MealRowKind::Outros, "Outros"@, join_seq(m.outros, ", "@)),
    ]
}

/// The parts whose value is shown, in order.
pub open spec fn shown_parts(parts: Seq<(MealRowKind, Seq<char>, Seq<char>)>) -> Seq<
    (MealRowKind, Seq<char>, Seq<char>),
>
    decreases parts.len(),
{
    if parts.len() == 0 {
        Seq::empty()
    } else {
        let p = shown_parts(parts.drop_last());
        if is_shown(parts.last().2) {
            p.push(parts.last())
        } else {
            p
        }
    }
}

/// The value of a row.
pub open spec fn row_view(r: MealRow) -> (MealRowKind, Seq<char>, Seq<char>) {
    (r.kind, r.label@, r.value@)
}

/// The values of a sequence of rows.
pub open spec fn row_views(rows: Seq<MealRow>) -> Seq<(MealRowKind, Seq<char>, Seq<char>)> {
    Seq::new(rows.len(), |i: int| row_view(rows[i]))
}

/// Whether a value is shown.
pub fn value_is_shown(value: &str) -> (r: bool)
    ensures
        r == is_shown(value@),
{
    let v = chars_of(value);
    v.len() > 0 && !crate::text::same_chars(&v, &chars_of("[]"))
}

/// Adds a row when its value is shown.
fn push_if_shown(
    rows: &mut Vec<MealRow>,
    kind: MealRowKind,
    label: &str,
    value: String,
)
    ensures
        is_shown(value@) ==> row_views(final(rows)@) == row_views(old(rows)@).push(
            (kind, label@, value@),
        ),
        !is_shown(value@) ==> row_views(final(rows)@) == row_views(old(rows)@),
{
    if value_is_shown(value.as_str()) {
        let ghost old_rows = rows@;
        rows.push(MealRow { kind, label: String::from_str(label), value });
        assert(row_views(rows@) =~= row_views(old_rows).push((kind, label@, value@)));
    }
}

/// The rows of a meal that are shown, in display order.
pub fn meal_rows(meal: &Meal) -> (r: Vec<MealRow>)
    ensures
        row_views(r@) == shown_parts(meal_parts(meal@)),
{
    let ghost parts = meal_parts(meal@);
    let sep = chars_of(", ");
    let mut rows: Vec<MealRow> = Vec::new();
    let ops = crate::text::strings_to_chars(&meal.opcoes);
    let opcoes = string_of(&join(&ops, &sep));
    let outs = crate::text::strings_to_chars(&meal.outros);
    let outros = string_of(&join(&outs, &sep));
    assert(row_views(rows@) =~= shown_parts(parts.take(0)));
    push_if_shown(&mut rows, MealRowKind::Opcoes, "Opções", opcoes);
    assert(parts.take(1).drop_last() =~= parts.take(0));
    assert(parts.take(1).last() == parts[0]);
    assert(row_views(rows@) == shown_parts(parts.take(1)));
    push_if_shown(&mut rows, MealRowKind::Guarnicao, "Guarnição", meal.guarnicao.clone());
    assert(parts.take(2).drop_last() =~= parts.take(1));
    assert(parts.take(2).last() == parts[1]);
    assert(row_views(rows@) == shown_parts(parts.take(2)));
    push_if_shown(
        &mut rows,
        MealRowKind::GuarnicaoPvt,
        "Guarnição PVT",
        meal.guarnicao_pvt.clone(),
    );
    assert(parts.take(3).drop_last() =~= parts.take(2));
    assert(parts.take(3).last() == parts[2]);
    assert(row_views(rows@) == shown_parts(parts.take(3)));
    push_if_shown(
        &mut rows,
        MealRowKind::Acompanhamento,
        "Acompanhamento",
        meal.acompanhamento.clone(),
    );
    assert(parts.take(4).drop_last() =~= parts.take(3));
    assert(parts.take(4).last() == parts[3]);
    assert(row_views(rows@) == shown_parts(parts.take(4)));
    push_if_shown(&mut rows, MealRowKind::Salada, "Salada", meal.salada.clone());
    assert(parts.take(5).drop_last() =~= parts.take(4));
    assert(parts.take(5).last() == parts[4]);
    assert(row_views(rows@) == shown_parts(parts.take(5)));
    push_if_shown(&mut rows, MealRowKind::Sobremesa, "Sobremesa", meal.sobremesa.clone());
    assert(parts.take(6).drop_last() =~= parts.take(5));
    assert(parts.take(6).last() == parts[5]);
    assert(row_views(rows@) == shown_parts(parts.take(6)));
    push_if_shown(&mut rows, MealRowKind::Outros, "Outros", outros);
    assert(parts.take(7).drop_last() =~= parts.take(6));
    assert(parts.take(7).last() == parts[6]);
    assert(row_views(rows@) == shown_parts(parts.take(7)));
    assert(parts.take(7) =~= parts);
    rows
}

// ---------------------------------------------------------------------
// The meal panel of the interface
// ---------------------------------------------------------------------

/// A row of the meal panel: its kind, its label followed by `: `, and the
/// part of its value the field shows.
#[derive(Debug)]
pub struct PanelRow {
    pub kind: MealRowKind,
    pub label_text: String,
    pub shown: String,
}

/// The value of a panel row.
pub open spec fn panel_row_view(r: PanelRow) -> (MealRowKind, Seq<char>, Seq<char>) {
    (r.kind, r.label_text@, r.shown@)
}

/// The panel row of a shown part in a panel `width` columns wide at
/// animation tick `tick`: the label and `: `, then the value scrolled in
/// the columns the label leaves.
pub open spec fn panel_row_spec(part: (MealRowKind, Seq<char>, Seq<char>), width: nat, tick: u64) -> (
    MealRowKind,
    Seq<char>,
    Seq<char>,
) {
    let label = part.1 + ": "@;
    (part.0, label, marquee_spec(part.2, sat_sub(width as int, label.len() as int), tick))
}

/// The rows of a meal's panel, `width` columns wide, at animation tick
/// `tick`: one per shown part, in display order.
pub fn meal_panel_rows(meal: &Meal, width: usize, tick: u64) -> (r: Vec<PanelRow>)
    ensures
        r@.len() == shown_parts(meal_parts(meal@)).len(),
        forall|i: int|
            0 <= i < r@.len() ==> panel_row_view(#[trigger] r@[i]) == panel_row_spec(
                shown_parts(meal_parts(meal@))[i],
                width as nat,
                tick,
            ),
{
    let rows = meal_rows(meal);
    let ghost parts = shown_parts(meal_parts(meal@));
    assert(rows@.len() == parts.len()) by {
        assert(row_views(rows@).len() == rows@.len());
    }
    let mut out: Vec<PanelRow> = Vec::new();
    let mut i: usize = 0;
    while i < rows.len()
        invariant
            i <= rows@.len(),
            rows@.len() == parts.len(),
            row_views(rows@) == parts,
            out@.len() == i,
            forall|k: int|
                0 <= k < i ==> panel_row_view(#[trigger] out@[k]) == panel_row_spec(
                    parts[k],
                    width as nat,
                    tick,
                ),
        decreases rows@.len() - i,
    {
        let row = &rows[i];
        assert(row_view(*row) == parts[i as int]);
        let mut label_text = row.label.clone();
        label_text.append(": ");
        let n = label_text.as_str().unicode_len();
        let avail: usize = if width >= n {
            width - n
        } else {
            0
        };
        let shown = crate::app::apply_marquee(row.value.as_str(), avail, tick);
        out.push(PanelRow { kind: row.kind, label_text, shown });
        i += 1;
    }
    out
}

/// The title of a meal's panel: the meal's name, with the day's date in
/// brackets when a day is shown.
pub fn panel_title(title: &str, date: Option<&str>) -> (r: String)
    ensures
        r@ == (match date {
            Some(d) => title@ + " ("@ + d@ + ")"@,
            None => title@,
        }),
{
    let mut r = title.to_owned();
    if let Some(d) = date {
        r.append(" (");
        r.append(d);
        r.append(")");
    }
    r
}

/// The calories of a meal as the panel writes them.
pub fn calories_text(calories: u32) -> (r: String)
    ensures
        r@ == decimal(calories as nat),
{
    decimal_string(calories as u64)
}

// ---------------------------------------------------------------------
// Boxes of the daily menu
// ---------------------------------------------------------------------

/// `a - b`, or 0 when `b` is larger (as `usize::saturating_sub`).
pub open spec fn sat_sub(a: int, b: int) -> nat {
    if a >= b {
        (a - b) as nat
    } else {
        0
    }
}

/// `s` repeated `n` times (as `str::repeat`).
pub open spec fn repeat_seq(s: Seq<char>, n: nat) -> Seq<char>
    decreases n,
{
    if n == 0 {
        Seq::empty()
    } else {
        repeat_seq(s, (n - 1) as nat) + s
    }
}

/// `s` repeated `n` times.
pub fn repeat_text(s: &str, n: usize) -> (r: String)
    ensures
        r@ == repeat_seq(s@, n as nat),
{
    let mut r = String::new();
    let mut i: usize = 0;
    while i < n
        invariant
            i <= n,
            r@ == repeat_seq(s@, i as nat),
        decreases n - i,
    {
        r.append(s);
        i += 1;
    }
    r
}

/// The top border of a box: `┌`, the title part, dashes up to the box's
/// 70 columns, `┐`, in the border colour.
pub open spec fn box_top_spec(prefix: Seq<char>, border: ThemeColor) -> Seq<char> {
    colorize_spec(
        "┌"@ + prefix + repeat_seq("─"@, sat_sub(70, (prefix.len() + 2) as int)) + "┐"@,
        border,
    )
}

/// The bottom border of a box, in the border colour.
pub open spec fn box_bottom_spec(border: ThemeColor) -> Seq<char> {
    colorize_spec("└"@ + repeat_seq("─"@, 68) + "┘"@, border)
}

/// A value cut to `avail` columns: when longer, its first `avail - 3`
/// characters and `...`.
pub open spec fn fitted_value(value: Seq<char>, avail: nat) -> Seq<char> {
    if value.len() > avail {
        value.take(sat_sub(avail as int, 3) as int) + "..."@
    } else {
        value
    }
}

/// The label part of a row: the label and `: `, or nothing for an empty
/// label.
pub open spec fn row_label_text(label: Seq<char>) -> Seq<char> {
    if label.len() == 0 {
        Seq::empty()
    } else {
        label + ": "@
    }
}

/// The value part of a row, cut to the room the label leaves of the 64
/// inner columns.
pub open spec fn row_shown_value(label: Seq<char>, value: Seq<char>) -> Seq<char> {
    fitted_value(value, sat_sub(64, row_label_text(label).len() as int))
}

/// The spaces that fill a row to its 64 inner columns.
pub open spec fn row_padding(label: Seq<char>, value: Seq<char>) -> Seq<char> {
    repeat_seq(
        " "@,
        sat_sub(64, (row_label_text(label).len() + row_shown_value(label, value).len()) as int),
    )
}

/// A labelled row of a box: borders in the border colour, the label part
/// in its colour, the value cut to fit, and padding.
pub open spec fn box_row_spec(
    label: Seq<char>,
    value: Seq<char>,
    label_color: ThemeColor,
    border: ThemeColor,
) -> Seq<char> {
    colorize_spec("│"@, border) + "  "@ + colorize_spec(row_label_text(label), label_color)
        + row_shown_value(label, value) + row_padding(label, value) + "  "@ + colorize_spec(
        "│"@,
        border,
    )
}

/// The top border of a box.
pub fn box_top(prefix: &str, border: ThemeColor) -> (r: String)
    ensures
        r@ == box_top_spec(prefix@, border),
{
    let n = prefix.unicode_len();
    let dashes: usize = if n <= 68 {
        68 - n
    } else {
        0
    };
    let mut t = String::from_str("┌");
    t.append(prefix);
    t.append(repeat_text("─", dashes).as_str());
    t.append("┐");
    colorize(t.as_str(), border)
}

/// The bottom border of a box.
pub fn box_bottom(border: ThemeColor) -> (r: String)
    ensures
        r@ == box_bottom_spec(border),
{
    let mut t = String::from_str("└");
    t.append(repeat_text("─", 68).as_str());
    t.append("┘");
    colorize(t.as_str(), border)
}

/// A labelled row of a box.
pub fn box_row(label: &str, value: &str, label_color: ThemeColor, border: ThemeColor) -> (r: String)
    ensures
        r@ == box_row_spec(label@, value@, label_color, border),
{
    let mut label_text = String::new();
    if label.unicode_len() > 0 {
        label_text.append(label);
        label_text.append(": ");
    }
    let label_len = label_text.as_str().unicode_len();
    let avail: usize = if label_len <= 64 {
        64 - label_len
    } else {
        0
    };
    let v = chars_of(value);
    let shown = if v.len() > avail {
        let keep: usize = if avail >= 3 {
            avail - 3
        } else {
            0
        };
        let mut t = string_of(&crate::text::slice_chars(&v, 0, keep));
        t.append("...");
        t
    } else {
        string_of(&v)
    };
    let used = shown.as_str().unicode_len();
    let pad: usize = if label_len <= 64 && used <= 64 - label_len {
        64 - label_len - used
    } else {
        0
    };
    let mut r = colorize("│", border);
    r.append("  ");
    r.append(colorize(label_text.as_str(), label_color).as_str());
    r.append(shown.as_str());
    r.append(repeat_text(" ", pad).as_str());
    r.append("  ");
    r.append(colorize("│", border).as_str());
    r
}

/// The colour of a row's label.
pub open spec fn row_label_color(kind: MealRowKind, theme: AppTheme) -> ThemeColor {
    match kind {
        MealRowKind::Opcoes => parse_color_spec(theme.label_opcoes@),
        MealRowKind::Guarnicao => parse_color_spec(theme.label_guarnicao@),
        MealRowKind::GuarnicaoPvt => parse_color_spec(theme.label_pvt@),
        MealRowKind::Acompanhamento => parse_color_spec(theme.label_acompanhamento@),
        MealRowKind::Salada => parse_color_spec(theme.label_salada@),
        MealRowKind::Sobremesa => parse_color_spec(theme.label_sobremesa@),
        MealRowKind::Outros => parse_color_spec(theme.label_outros@),
    }
}

/// The theme's colours that a meal box reads can be read: the border, and
/// every label colour and the highlight for a meal, or the secondary
/// colour for a missing one.
pub open spec fn meal_box_colors_defined(meal_present: bool, theme: AppTheme) -> bool {
    &&& color_defined(theme.primary@)
    &&& meal_present ==> {
        &&& color_defined(theme.label_opcoes@)
        &&& color_defined(theme.label_guarnicao@)
        &&& color_defined(theme.label_pvt@)
        &&& color_defined(theme.label_acompanhamento@)
        &&& color_defined(theme.label_salada@)
        &&& color_defined(theme.label_sobremesa@)
        &&& color_defined(theme.label_outros@)
        &&& color_defined(theme.highlight@)
    }
    &&& !meal_present ==> color_defined(theme.secondary@)
}

/// The boxed rows of the shown parts of a meal.
pub open spec fn part_rows(
    parts: Seq<(MealRowKind, Seq<char>, Seq<char>)>,
    theme: AppTheme,
) -> Seq<Seq<char>> {
    Seq::new(
        parts.len(),
        |i: int|
            box_row_spec(
                parts[i].1,
                parts[i].2,
                row_label_color(parts[i].0, theme),
                parse_color_spec(theme.primary@),
            ),
    )
}

/// The lines of a meal's box: the titled top border, a row per shown part
/// and the calories (or a notice that there is no menu), the bottom
/// border.
pub open spec fn meal_box_spec(title: Seq<char>, meal: Option<MealView>, theme: AppTheme) -> Seq<
    Seq<char>,
> {
    let border = parse_color_spec(theme.primary@);
    let body = match meal {
        Some(m) => part_rows(shown_parts(meal_parts(m)), theme) + seq![
            box_row_spec(
                "Calorias"@,
                decimal(m.calories as nat) + " kcal"@,
                parse_color_spec(theme.highlight@),
                border,
            ),
        ],
        None => seq![
            box_row_spec(
                Seq::empty(),
                "Sem cardápio cadastrado"@,
                parse_color_spec(theme.secondary@),
                border,
            ),
        ],
    };
    seq![box_top_spec("── "@ + title + " "@, border)] + body + seq![box_bottom_spec(border)]
}

/// The colour of a row's label.
fn label_color_of(kind: MealRowKind, theme: &AppTheme) -> (c: ThemeColor)
    requires
        meal_box_colors_defined(true, *theme),
    ensures
        c == row_label_color(kind, *theme),
{
    match kind {
        MealRowKind::Opcoes => theme.label_opcoes(),
        MealRowKind::Guarnicao => theme.label_guarnicao(),
        MealRowKind::GuarnicaoPvt => theme.label_pvt(),
        MealRowKind::Acompanhamento => theme.label_acompanhamento(),
        MealRowKind::Salada => theme.label_salada(),
        MealRowKind::Sobremesa => theme.label_sobremesa(),
        MealRowKind::Outros => theme.label_outros(),
    }
}

/// Appends lines.
fn push_lines(dst: &mut Vec<String>, src: Vec<String>)
    ensures
        string_views(final(dst)@) == string_views(old(dst)@) + string_views(src@),
{
    let ghost start = string_views(dst@);
    let mut i: usize = 0;
    while i < src.len()
        invariant
            i <= src@.len(),
            string_views(dst@) == start + string_views(src@).take(i as int),
        decreases src@.len() - i,
    {
        let ghost before = dst@;
        dst.push(src[i].clone());
        assert(string_views(dst@) =~= string_views(before).push(src@[i as int]@));
        assert(string_views(src@).take(i + 1) =~= string_views(src@).take(i as int).push(
            src@[i as int]@,
        ));
        i += 1;
    }
    assert(string_views(src@).take(src@.len() as int) =~= string_views(src@));
}

/// Appends one line.
fn push_line(dst: &mut Vec<String>, line: String)
    ensures
        string_views(final(dst)@) == string_views(old(dst)@).push(line@),
{
    let ghost before = dst@;
    dst.push(line);
    assert(string_views(dst@) =~= string_views(before).push(line@));
}

/// The lines of a meal's box.
pub fn meal_box(title: &str, meal: Option<&Meal>, theme: &AppTheme) -> (r: Vec<String>)
    requires
        meal_box_colors_defined(meal is Some, *theme),
    ensures
        string_views(r@) == meal_box_spec(
            title@,
            match meal {
                Some(m) => Some(m@),
                None => None,
            },
            *theme,
        ),
{
    let border = theme.primary();
    let mut lines: Vec<String> = Vec::new();
    let mut prefix = String::from_str("── ");
    prefix.append(title);
    prefix.append(" ");
    push_line(&mut lines, box_top(prefix.as_str(), border));
    let ghost head = string_views(lines@);
    match meal {
        Some(m) => {
            let rows = meal_rows(m);
            let ghost parts = shown_parts(meal_parts(m@));
            let mut i: usize = 0;
            while i < rows.len()
                invariant
                    i <= rows@.len(),
                    row_views(rows@) == parts,
                    meal_box_colors_defined(true, *theme),
                    border == parse_color_spec(theme.primary@),
                    string_views(lines@) == head + part_rows(parts, *theme).take(i as int),
                decreases rows@.len() - i,
            {
                let row = &rows[i];
                assert(row_views(rows@)[i as int] == row_view(rows@[i as int]));
                let c = label_color_of(row.kind, theme);
                let line = box_row(row.label.as_str(), row.value.as_str(), c, border);
                let ghost before = string_views(lines@);
                push_line(&mut lines, line);
                assert(part_rows(parts, *theme).take(i + 1) =~= part_rows(parts, *theme).take(
                    i as int,
                ).push(line@));
                i += 1;
            }
            assert(part_rows(parts, *theme).take(rows@.len() as int) =~= part_rows(
                parts,
                *theme,
            ));
            let mut cal = decimal_string(m.calories as u64);
            cal.append(" kcal");
            let cal_row = box_row("Calorias", cal.as_str(), theme.highlight(), border);
            let ghost mid = string_views(lines@);
            push_line(&mut lines, cal_row);
            assert(string_views(lines@).skip(1) =~= part_rows(parts, *theme) + seq![cal_row@]);
            push_line(&mut lines, box_bottom(border));
            assert(string_views(lines@) =~= meal_box_spec(title@, Some(m@), *theme));
        },
        None => {
            proof {
                reveal_strlit("");
            }
            let row = box_row("", "Sem cardápio cadastrado", theme.secondary(), border);
            push_line(&mut lines, row);
            assert(string_views(lines@).skip(1) =~= seq![row@]);
            push_line(&mut lines, box_bottom(border));
            assert(string_views(lines@) =~= meal_box_spec(title@, None, *theme));
        },
    }
    lines
}

// ---------------------------------------------------------------------
// The daily menu printed to the console
// ---------------------------------------------------------------------

/// The day shown for a weekday counted from Monday = 0 (Monday when out
/// of range).
pub open spec fn selected_index(weekday: nat) -> nat {
    if weekday < 7 {
        weekday
    } else {
        0
    }
}

/// The day printed for `weekday` (counted from Monday = 0): the first day
/// of the week whose weekday number is the day's number from Monday = 1.
pub open spec fn today_position(menu: MenuDataView, weekday: nat) -> Option<nat> {
    day_position(menu.days, selected_index(weekday) as int + 1)
}

/// The theme's colours that the daily print reads can be read.
pub open spec fn daily_colors_defined(menu: MenuDataView, theme: AppTheme, weekday: nat) -> bool {
    &&& color_defined(theme.primary@)
    &&& color_defined(theme.highlight@)
    &&& match today_position(menu, weekday) {
        Some(j) => {
            &&& meal_box_colors_defined(menu.days[j as int].almoco is Some, theme)
            &&& meal_box_colors_defined(menu.days[j as int].jantar is Some, theme)
        },
        None => color_defined(theme.error@),
    }
}

/// The row naming the restaurant.
pub open spec fn restaurant_row_spec(name: Seq<char>, label_color: ThemeColor, border: ThemeColor) -> Seq<char> {
    colorize_spec("│"@, border) + "  "@ + colorize_spec("Unidade selecionada: "@, label_color)
        + name + repeat_seq(" "@, sat_sub(64, 21 + name.len() as int)) + "  "@ + colorize_spec(
        "│"@,
        border,
    )
}

/// The row naming the day and its date.
pub open spec fn agenda_row_spec(day_text: Seq<char>, border: ThemeColor) -> Seq<char> {
    colorize_spec("│"@, border) + "  "@ + day_text + "  "@ + repeat_seq(
        " "@,
        sat_sub(64, day_text.len() as int),
    ) + colorize_spec("│"@, border)
}

/// The lines printed for the day of `weekday`: an empty line, the
/// restaurant box, then the box of today's day (found by its weekday
/// number) and its lunch and dinner boxes, or a notice that the week holds
/// no menu for today.
pub open spec fn daily_menu_spec(menu: MenuDataView, theme: AppTheme, weekday: nat) -> Seq<
    Seq<char>,
> {
    let idx = selected_index(weekday);
    let border = parse_color_spec(theme.primary@);
    let head = seq![
        Seq::empty(),
        box_top_spec(" Restaurante "@, border),
        restaurant_row_spec(menu.restaurant_name, parse_color_spec(theme.highlight@), border),
        box_bottom_spec(border),
    ];
    match today_position(menu, weekday) {
        Some(j) => {
            let day = menu.days[j as int];
            let day_text = crate::app::day_names()[idx as int] + " ("@ + day.date + ")"@;
            head + seq![
                box_top_spec(" Agenda "@, border),
                agenda_row_spec(day_text, border),
                box_bottom_spec(border),
            ] + meal_box_spec("ALMOÇO"@, day.almoco, theme) + meal_box_spec(
                "JANTAR"@,
                day.jantar,
                theme,
            )
        },
        None => head + seq![
            colorize_spec(
                "Dados do cardápio não encontrados para hoje."@,
                parse_color_spec(theme.error@),
            ),
        ],
    }
}

/// The row naming the restaurant.
fn restaurant_row(name: &str, label_color: ThemeColor, border: ThemeColor) -> (r: String)
    ensures
        r@ == restaurant_row_spec(name@, label_color, border),
{
    proof {
        reveal_strlit("Unidade selecionada: ");
    }
    let n = name.unicode_len();
    let pad: usize = if n <= 43 {
        43 - n
    } else {
        0
    };
    let mut r = colorize("│", border);
    r.append("  ");
    r.append(colorize("Unidade selecionada: ", label_color).as_str());
    r.append(name);
    r.append(repeat_text(" ", pad).as_str());
    r.append("  ");
    r.append(colorize("│", border).as_str());
    r
}

/// The row naming the day and its date.
fn agenda_row(day_text: &str, border: ThemeColor) -> (r: String)
    ensures
        r@ == agenda_row_spec(day_text@, border),
{
    let n = day_text.unicode_len();
    let pad: usize = if n <= 64 {
        64 - n
    } else {
        0
    };
    let mut r = colorize("│", border);
    r.append("  ");
    r.append(day_text);
    r.append("  ");
    r.append(repeat_text(" ", pad).as_str());
    r.append(colorize("│", border).as_str());
    r
}

/// The lines printed for the menu of today, `current_weekday` counted
/// from Monday = 0.
#[verifier::rlimit(30)]
pub fn daily_menu_lines(menu_data: &MenuData, theme: &AppTheme, current_weekday: usize) -> (r: Vec<
    String,
>)
    requires
        daily_colors_defined(menu_data@, *theme, current_weekday as nat),
    ensures
        string_views(r@) == daily_menu_spec(menu_data@, *theme, current_weekday as nat),
{
    let idx: usize = if current_weekday < 7 {
        current_weekday
    } else {
        0
    };
    let border = theme.primary();
    let mut lines: Vec<String> = Vec::new();
    push_line(&mut lines, String::new());
    push_line(&mut lines, box_top(" Restaurante ", border));
    push_line(
        &mut lines,
        restaurant_row(menu_data.restaurant_name.as_str(), theme.highlight(), border),
    );
    push_line(&mut lines, box_bottom(border));
    let ghost head = string_views(lines@);
    let found = find_day_index(&menu_data.days, (idx + 1) as u32);
    if let Some(j) = found {
        let day: &DayMenu = &menu_data.days[j];
        assert(day@ == menu_data@.days[j as int]);
        let names = crate::app::weekday_names();
        assert(names@.len() == 7) by {
            assert(string_views(names@).len() == names@.len());
        }
        assert(string_views(names@)[idx as int] == names@[idx as int]@);
        let mut day_text = names[idx].clone();
        day_text.append(" (");
        day_text.append(day.date.as_str());
        day_text.append(")");
        push_line(&mut lines, box_top(" Agenda ", border));
        push_line(&mut lines, agenda_row(day_text.as_str(), border));
        push_line(&mut lines, box_bottom(border));
        let ghost mid = string_views(lines@);
        let lunch_ref = day.almoco.as_ref();
        let dinner_ref = day.jantar.as_ref();
        assert(match lunch_ref {
            Some(m) => Some(m@),
            None => None,
        } == day@.almoco);
        assert(match dinner_ref {
            Some(m) => Some(m@),
            None => None,
        } == day@.jantar);
        let lunch = meal_box("ALMOÇO", lunch_ref, theme);
        let dinner = meal_box("JANTAR", dinner_ref, theme);
        push_lines(&mut lines, lunch);
        push_lines(&mut lines, dinner);
        assert(string_views(lines@) =~= daily_menu_spec(
            menu_data@,
            *theme,
            current_weekday as nat,
        ));
    } else {
        let msg = colorize("Dados do cardápio não encontrados para hoje.", theme.error());
        push_line(&mut lines, msg);
        assert(string_views(lines@) =~= daily_menu_spec(
            menu_data@,
            *theme,
            current_weekday as nat,
        ));
    }
    lines
}

/// Whether the colours a meal box reads can be read.
pub fn meal_box_colors_ok(meal_present: bool, theme: &AppTheme) -> (r: bool)
    ensures
        r == meal_box_colors_defined(meal_present, *theme),
{
    let border = color_parses(theme.primary.as_str());
    if meal_present {
        border && color_parses(theme.label_opcoes.as_str()) && color_parses(
            theme.label_guarnicao.as_str(),
        ) && color_parses(theme.label_pvt.as_str()) && color_parses(
            theme.label_acompanhamento.as_str(),
        ) && color_parses(theme.label_salada.as_str()) && color_parses(
            theme.label_sobremesa.as_str(),
        ) && color_parses(theme.label_outros.as_str()) && color_parses(theme.highlight.as_str())
    } else {
        border && color_parses(theme.secondary.as_str())
    }
}

/// Whether the colours the daily print reads can be read.
pub fn daily_colors_ok(menu_data: &MenuData, theme: &AppTheme, current_weekday: usize) -> (r: bool)
    ensures
        r == daily_colors_defined(menu_data@, *theme, current_weekday as nat),
{
    let idx: usize = if current_weekday < 7 {
        current_weekday
    } else {
        0
    };
    let base = color_parses(theme.primary.as_str()) && color_parses(theme.highlight.as_str());
    let found = find_day_index(&menu_data.days, (idx + 1) as u32);
    if let Some(j) = found {
        let day = &menu_data.days[j];
        assert(day@ == menu_data@.days[j as int]);
        base && meal_box_colors_ok(day.almoco.is_some(), theme) && meal_box_colors_ok(
            day.jantar.is_some(),
            theme,
        )
    } else {
        base && color_parses(theme.error.as_str())
    }
}

// ---------------------------------------------------------------------
// Laws of the boxes
// ---------------------------------------------------------------------

/// `s` repeated `n` times is `n` times as long.
pub proof fn lemma_repeat_len(s: Seq<char>, n: nat)
    ensures
        repeat_seq(s, n).len() == n * s.len(),
    decreases n,
{
    if n > 0 {
        lemma_repeat_len(s, (n - 1) as nat);
        assert((n - 1) * s.len() + s.len() == n * s.len()) by (nonlinear_arith);
    } else {
        assert(0 * s.len() == 0) by (nonlinear_arith);
    }
}

/// Every row of a box fills its 64 inner columns exactly (when the label
/// leaves room for the `...` of a cut value), and a value is cut only when
/// it does not fit, keeping its start and ending in `...`.
pub proof fn lemma_box_row_width(label: Seq<char>, value: Seq<char>)
    requires
        row_label_text(label).len() <= 61,
    ensures
        row_label_text(label).len() + row_shown_value(label, value).len() + row_padding(
            label,
            value,
        ).len() == 64,
        row_label_text(label).len() + value.len() <= 64 ==> row_shown_value(label, value)
            == value,
        row_label_text(label).len() + value.len() > 64 ==> row_shown_value(label, value) == value.take(
            61 - row_label_text(label).len(),
        ) + "..."@,
{
    reveal_strlit("...");
    reveal_strlit(" ");
    let l = row_label_text(label).len();
    let w = row_shown_value(label, value);
    assert(w.len() <= 64 - l);
    lemma_repeat_len(" "@, sat_sub(64, (l + w.len()) as int));
}

/// The top border of a box is 70 columns wide for a title part of at most
/// 68 characters.
pub proof fn lemma_box_top_width(prefix: Seq<char>)
    requires
        prefix.len() <= 68,
    ensures
        ("┌"@ + prefix + repeat_seq("─"@, sat_sub(70, (prefix.len() + 2) as int)) + "┐"@).len()
            == 70,
{
    reveal_strlit("┌");
    reveal_strlit("─");
    reveal_strlit("┐");
    lemma_repeat_len("─"@, sat_sub(70, (prefix.len() + 2) as int));
}

/// The label that names a part of a meal.
pub open spec fn kind_label(k: MealRowKind) -> Seq<char> {
    match k {
        MealRowKind::Opcoes => "Opções"@,
        MealRowKind::Guarnicao => "Guarnição"@,
        MealRowKind::GuarnicaoPvt => "Guarnição PVT"@,
        MealRowKind::Acompanhamento => "Acompanhamento"@,
        MealRowKind::Salada => "Salada"@,
        MealRowKind::Sobremesa => "Sobremesa"@,
        MealRowKind::Outros => "Outros"@,
    }
}

/// The text of a part of a meal (lists joined with `, `).
pub open spec fn kind_value(m: MealView, k: MealRowKind) -> Seq<char> {
    match k {
        MealRowKind::Opcoes => join_seq(m.opcoes, ", "@),
        MealRowKind::Guarnicao => m.guarnicao,
        MealRowKind::GuarnicaoPvt => m.guarnicao_pvt,
        MealRowKind::Acompanhamento => m.acompanhamento,
        MealRowKind::Salada => m.salada,
        MealRowKind::Sobremesa => m.sobremesa,
        MealRowKind::Outros => join_seq(m.outros, ", "@),
    }
}

/// The place of a part of a meal in the display order.
pub open spec fn kind_rank(k: MealRowKind) -> int {
    match k {
        MealRowKind::Opcoes => 0,
        MealRowKind::Guarnicao => 1,
        MealRowKind::GuarnicaoPvt => 2,
        MealRowKind::Acompanhamento => 3,
        MealRowKind::Salada => 4,
        MealRowKind::Sobremesa => 5,
        MealRowKind::Outros => 6,
    }
}

/// Parts in strictly increasing display order.
pub open spec fn ranks_increasing(parts: Seq<(MealRowKind, Seq<char>, Seq<char>)>) -> bool {
    forall|i: int, j: int|
        0 <= i < j < parts.len() ==> kind_rank(parts[i].0) < kind_rank(parts[j].0)
}

proof fn lemma_shown_parts(parts: Seq<(MealRowKind, Seq<char>, Seq<char>)>)
    ensures
        forall|x: (MealRowKind, Seq<char>, Seq<char>)|
            #[trigger] shown_parts(parts).contains(x) <==> (parts.contains(x) && is_shown(x.2)),
        ranks_increasing(parts) ==> ranks_increasing(shown_parts(parts)),
    decreases parts.len(),
{
    if parts.len() > 0 {
        let t = parts.drop_last();
        let y = parts.last();
        lemma_shown_parts(t);
        let p = shown_parts(t);
        let r = shown_parts(parts);
        assert forall|x: (MealRowKind, Seq<char>, Seq<char>)| #[trigger] r.contains(x) <==> (
        parts.contains(x) && is_shown(x.2)) by {
            if parts.contains(x) {
                let k = choose|k: int| 0 <= k < parts.len() && parts[k] == x;
                if k < t.len() {
                    assert(t[k] == x);
                    assert(t.contains(x));
                }
            }
            if t.contains(x) {
                let k = choose|k: int| 0 <= k < t.len() && t[k] == x;
                assert(parts[k] == x);
            }
            if r.contains(x) && is_shown(y.2) {
                let k = choose|k: int| 0 <= k < r.len() && r[k] == x;
                if k < p.len() {
                    assert(p[k] == x);
                }
            }
            if is_shown(y.2) && p.contains(x) {
                let k = choose|k: int| 0 <= k < p.len() && p[k] == x;
                assert(r[k] == x);
            }
            if is_shown(y.2) && x == y {
                assert(r[p.len() as int] == y);
            }
            assert(parts[parts.len() - 1] == y);
        }
        if ranks_increasing(parts) {
            assert(ranks_increasing(t));
            if is_shown(y.2) {
                assert forall|i: int, j: int| 0 <= i < j < r.len() implies kind_rank(r[i].0)
                    < kind_rank(r[j].0) by {
                    if j == r.len() - 1 {
                        assert(p.contains(p[i]));
                        let k = choose|k: int| 0 <= k < t.len() && t[k] == p[i];
                        assert(parts[k] == t[k]);
                    } else {
                        assert(r[i] == p[i] && r[j] == p[j]);
                    }
                }
            }
        }
    }
}

/// Each row of a meal is labelled with the name of the part whose text it
/// holds (the row labelled Salada holds the salad, the row labelled
/// Sobremesa the dessert), the rows come in display order, and every part
/// whose text is shown has its row.
pub proof fn lemma_meal_rows_label_their_parts(m: MealView)
    ensures
        forall|i: int|
            0 <= i < shown_parts(meal_parts(m)).len() ==> {
                let p = #[trigger] shown_parts(meal_parts(m))[i];
                &&& p.1 == kind_label(p.0)
                &&& p.2 == kind_value(m, p.0)
                &&& is_shown(p.2)
            },
        ranks_increasing(shown_parts(meal_parts(m))),
        forall|k: MealRowKind|
            is_shown(#[trigger] kind_value(m, k)) ==> exists|i: int|
                0 <= i < shown_parts(meal_parts(m)).len() && shown_parts(meal_parts(m))[i].0 == k,
{
    let parts = meal_parts(m);
    let r = shown_parts(parts);
    lemma_shown_parts(parts);
    assert forall|j: int| 0 <= j < parts.len() implies #[trigger] parts[j].1 == kind_label(
        parts[j].0,
    ) && parts[j].2 == kind_value(m, parts[j].0) && kind_rank(parts[j].0) == j by {}
    assert forall|i: int| 0 <= i < r.len() implies {
        let p = #[trigger] r[i];
        &&& p.1 == kind_label(p.0)
        &&& p.2 == kind_value(m, p.0)
        &&& is_shown(p.2)
    } by {
        assert(r.contains(r[i]));
        let j = choose|j: int| 0 <= j < parts.len() && parts[j] == r[i];
        assert(parts[j].1 == kind_label(parts[j].0));
    }
    assert(ranks_increasing(parts)) by {
        assert forall|i: int, j: int| 0 <= i < j < parts.len() implies kind_rank(parts[i].0)
            < kind_rank(parts[j].0) by {
            assert(kind_rank(parts[i].0) == i);
            assert(kind_rank(parts[j].0) == j);
        }
    }
    assert forall|k: MealRowKind| is_shown(#[trigger] kind_value(m, k)) implies exists|i: int|
        0 <= i < r.len() && r[i].0 == k by {
        let j = kind_rank(k);
        assert(parts[j].0 == k) by {
            match k {
                MealRowKind::Opcoes => {},
                MealRowKind::Guarnicao => {},
                MealRowKind::GuarnicaoPvt => {},
                MealRowKind::Acompanhamento => {},
                MealRowKind::Salada => {},
                MealRowKind::Sobremesa => {},
                MealRowKind::Outros => {},
            }
        }
        assert(parts.contains(parts[j]));
        assert(r.contains(parts[j]));
        let i = choose|i: int| 0 <= i < r.len() && r[i] == parts[j];
        assert(r[i].0 == k);
    }
}

/// What a meal box says: under its titled top border, one row per shown
/// part of the meal (labelled by that part's name) and then the meal's
/// calories, or, without a meal, the single row "Sem cardápio cadastrado";
/// then its bottom border.
pub proof fn lemma_meal_box_says_its_meal(title: Seq<char>, meal: Option<MealView>, theme: AppTheme)
    ensures
        meal_box_spec(title, meal, theme)[0] == box_top_spec(
            "── "@ + title + " "@,
            parse_color_spec(theme.primary@),
        ),
        meal_box_spec(title, meal, theme).last() == box_bottom_spec(parse_color_spec(theme.primary@)),
        meal is None ==> meal_box_spec(title, meal, theme).len() == 3 && meal_box_spec(
            title,
            meal,
            theme,
        )[1] == box_row_spec(
            Seq::empty(),
            "Sem cardápio cadastrado"@,
            parse_color_spec(theme.secondary@),
            parse_color_spec(theme.primary@),
        ),
        meal matches Some(m) ==> {
            let n = shown_parts(meal_parts(m)).len() as int;
            &&& meal_box_spec(title, meal, theme).len() == n + 3
            &&& forall|i: int|
                0 <= i < n ==> #[trigger] meal_box_spec(title, meal, theme)[i + 1] == box_row_spec(
                    kind_label(shown_parts(meal_parts(m))[i].0),
                    kind_value(m, shown_parts(meal_parts(m))[i].0),
                    row_label_color(shown_parts(meal_parts(m))[i].0, theme),
                    parse_color_spec(theme.primary@),
                )
            &&& meal_box_spec(title, meal, theme)[n + 1] == box_row_spec(
                "Calorias"@,
                decimal(m.calories as nat) + " kcal"@,
                parse_color_spec(theme.highlight@),
                parse_color_spec(theme.primary@),
            )
        },
{
    if let Some(m) = meal {
        lemma_meal_rows_label_their_parts(m);
        let parts = shown_parts(meal_parts(m));
        let b = meal_box_spec(title, meal, theme);
        assert forall|i: int| 0 <= i < parts.len() implies #[trigger] b[i + 1] == box_row_spec(
            kind_label(parts[i].0),
            kind_value(m, parts[i].0),
            row_label_color(parts[i].0, theme),
            parse_color_spec(theme.primary@),
        ) by {
            assert(b[i + 1] == part_rows(parts, theme)[i]);
        }
    }
}

/// In the daily print of a day that has a menu, after the restaurant and
/// agenda boxes come the box titled ALMOÇO, showing that day's lunch, and
/// then the box titled JANTAR, showing its dinner.
pub proof fn lemma_daily_print_shows_lunch_then_dinner(
    menu: MenuDataView,
    theme: AppTheme,
    weekday: nat,
    j: nat,
)
    requires
        today_position(menu, weekday) == Some(j),
    ensures
        daily_menu_spec(menu, theme, weekday).skip(7) == meal_box_spec(
            "ALMOÇO"@,
            menu.days[j as int].almoco,
            theme,
        ) + meal_box_spec("JANTAR"@, menu.days[j as int].jantar, theme),
{
    let lines = daily_menu_spec(menu, theme, weekday);
    let day = menu.days[j as int];
    assert(lines.skip(7) =~= meal_box_spec("ALMOÇO"@, day.almoco, theme) + meal_box_spec(
        "JANTAR"@,
        day.jantar,
        theme,
    ));
}

} // verus!
