//! Reading the menu service's replies: field extraction, escape decoding,
//! meal text analysis, the week's menu, and the restaurant's name.

use vstd::prelude::*;

use crate::menu::{
    day_position, day_views, find_day_index, lemma_day_position, DayMenu, DayMenuView, Meal,
    MealView, MenuData, MenuDataView,
};
use crate::text::{
    chars_of, contains, contains_seq, decimal, decimal_string, is_scalar_value,
    lower_text, parse_u32, parse_u32_seq, parse_unsigned, parse_unsigned_seq, replace,
    replace_seq, same_chars, scan_bytes, slice_chars, split, split_seq, starts_with,
    starts_with_seq, string_of, string_views, strings_of, to_lower, trim, trim_seq, utf8_len,
    views, char_from_u32, is_byte_boundary, lemma_split_head, is_radix_digit, occurs_at,
    lemma_split_nonempty, lemma_split_concat, lemma_split_extend, lemma_first_occurrence_is,
    lemma_last_occurrence_is, find_from, lemma_find_from, chars_before_byte, find, rfind, first_occurrence,
    last_occurrence, lemma_last_occurrence_upto, lemma_trim_idempotent,
};

verus! {

// ---------------------------------------------------------------------
// Regular expressions
// ---------------------------------------------------------------------

/// The view of an optional string.
pub open spec fn opt_string_view(o: Option<String>) -> Option<Seq<char>> {
    match o {
        Some(s) => Some(s@),
        None => None,
    }
}

/// Compiles `pattern`, a field pattern `f:"(.*?)"` or `f:([^,}]*)` whose
/// field name `f` is a usable field name (at most 64 ASCII letters, digits
/// or `_`, which the crate's syntax takes literally; such a pattern stays
/// far below `Regex::new`'s default size limit of 10 MiB, so it compiles),
/// with `regex::Regex::new`, and returns the text of group 1
/// (`Captures::get`, `Match::as_str`) of the leftmost match that
/// `Regex::captures` finds in `haystack`. The contract states the capture
/// as the crate documents its semantics (leftmost-first match, `.` not
/// matching a line break, `*?` as short and `*` as long as the match
/// allows): `f:"(.*?)"` gives the text after the first `f:"` that is
/// followed by a `"` before any line break, up to that `"`
/// (`quoted_capture`); `f:([^,}]*)` gives the text after the first `f:` up
/// to the next `,`, `}` or the end (`bare_capture`).
#[verifier::external_body]
fn regex_capture(pattern: &str, haystack: &str) -> (r: Option<String>)
    requires
        exists|f: Seq<char>|
            usable_field_name(f) && (#[trigger] quoted_field_pattern(f) == pattern@
                || bare_field_pattern(f) == pattern@),
    ensures
        forall|f: Seq<char>|
            #[trigger] quoted_field_pattern(f) == pattern@ && usable_field_name(f)
                ==> opt_string_view(r) == quoted_capture(haystack@, f),
        forall|f: Seq<char>|
            #[trigger] bare_field_pattern(f) == pattern@ && usable_field_name(f)
                ==> opt_string_view(r) == bare_capture(haystack@, f),
{
    match regex::Regex::new(pattern) {
        Ok(re) => re.captures(haystack).and_then(|c| c.get(1)).map(|m| m.as_str().to_string()),
        Err(_) => None,
    }
}

/// Compiles `pattern`, which must be the escape pattern `\\u([0-9a-fA-F]{4})`,
/// with `regex::Regex::new`, and runs `Regex::replace_all` on `text`, each
/// match replaced by the verified `escape_replacement` of its group 1. The
/// claim is the crate's documented behaviour of `replace_all`: every
/// non-overlapping leftmost-first match, from left to right, is replaced
/// and the text between matches is kept; for this pattern a match is a
/// backslash, `u` and four ASCII hexadecimal digits, which is what
/// `decoded_escapes` spells out.
#[verifier::external_body]
fn regex_replace_escapes(pattern: &str, text: &str) -> (r: String)
    requires
        pattern@ == escape_pattern(),
    ensures
        r@ == decoded_escapes(text@),
{
    match regex::Regex::new(pattern) {
        Ok(re) => re.replace_all(
            text,
            |c: &regex::Captures| escape_replacement(c.get(1).map_or("", |m| m.as_str())),
        ).into_owned(),
        Err(_) => text.to_string(),
    }
}

// ---------------------------------------------------------------------
// Fields of the service's objects
// ---------------------------------------------------------------------

/// The pattern for a quoted value: the field name, `:"`, the shortest text
/// up to the next `"`.
pub open spec fn quoted_field_pattern(field: Seq<char>) -> Seq<char> {
    field + ":\"(.*?)\""@
}

/// The pattern for a bare value: the field name, `:`, and everything up to
/// the next `,` or `}`.
pub open spec fn bare_field_pattern(field: Seq<char>) -> Seq<char> {
    field + ":([^,}]*)"@
}

/// A character that a regular expression takes literally and that names
/// fields: an ASCII letter or digit, or `_`.
pub open spec fn is_word_char(c: char) -> bool {
    ('a' <= c && c <= 'z') || ('A' <= c && c <= 'Z') || ('0' <= c && c <= '9') || c == '_'
}

/// A field name made of word characters only.
pub open spec fn plain_name(f: Seq<char>) -> bool {
    forall|i: int| 0 <= i < f.len() ==> is_word_char(#[trigger] f[i])
}

/// A field name the field patterns can be built from: plain, and at most
/// 64 characters long.
pub open spec fn usable_field_name(f: Seq<char>) -> bool {
    plain_name(f) && f.len() <= 64
}

/// The first position at or after `k` that holds `"` or a line break.
pub open spec fn quote_or_break_from(s: Seq<char>, k: nat) -> Option<nat>
    decreases s.len() - k,
{
    if k >= s.len() {
        None
    } else if s[k as int] == '"' || s[k as int] == '\n' {
        Some(k)
    } else {
        quote_or_break_from(s, k + 1)
    }
}

/// The quoted value of `f` when `f:"` starts at `i`: the text up to the
/// next `"`, provided no line break comes first.
pub open spec fn quoted_value_at(s: Seq<char>, f: Seq<char>, i: nat) -> Option<Seq<char>> {
    let p = f + ":\""@;
    if !occurs_at(s, p, i as int) {
        None
    } else {
        match quote_or_break_from(s, i + p.len()) {
            Some(q) => if s[q as int] == '"' {
                Some(s.subrange((i + p.len()) as int, q as int))
            } else {
                None
            },
            None => None,
        }
    }
}

/// The quoted value of `f` at the first place at or after `i` that has
/// one.
pub open spec fn quoted_capture_from(s: Seq<char>, f: Seq<char>, i: nat) -> Option<Seq<char>>
    decreases s.len() - i,
{
    if i >= s.len() {
        None
    } else {
        match quoted_value_at(s, f, i) {
            Some(v) => Some(v),
            None => quoted_capture_from(s, f, i + 1),
        }
    }
}

/// What `f:"(.*?)"` captures in `s`.
pub open spec fn quoted_capture(s: Seq<char>, f: Seq<char>) -> Option<Seq<char>> {
    quoted_capture_from(s, f, 0)
}

/// The first position at or after `k` that holds `,` or `}`, or the end.
pub open spec fn bare_end_from(s: Seq<char>, k: nat) -> nat
    decreases s.len() - k,
{
    if k >= s.len() {
        s.len()
    } else if s[k as int] == ',' || s[k as int] == '}' {
        k
    } else {
        bare_end_from(s, k + 1)
    }
}

/// What `f:([^,}]*)` captures in `s`: the text after the first `f:` up to
/// the next `,` or `}` or the end.
pub open spec fn bare_capture(s: Seq<char>, f: Seq<char>) -> Option<Seq<char>> {
    let p = f + ":"@;
    match first_occurrence(s, p) {
        Some(i) => Some(s.subrange((i + p.len()) as int, bare_end_from(s, i + p.len()) as int)),
        None => None,
    }
}

/// What the quoted or the bare pattern of `field` captures in `obj`.
pub open spec fn field_capture(obj: Seq<char>, field: Seq<char>, quoted: bool) -> Option<Seq<char>> {
    if quoted {
        quoted_capture(obj, field)
    } else {
        bare_capture(obj, field)
    }
}

/// A captured value that counts: present and not the word `null`.
pub open spec fn usable_capture(c: Option<Seq<char>>) -> Option<Seq<char>> {
    match c {
        Some(v) => if v == "null"@ {
            None
        } else {
            Some(v)
        },
        None => None,
    }
}

/// The value of `field` in a service object: the quoted form if it gives a
/// value other than `null`, else the bare form under the same condition,
/// else the empty string.
pub open spec fn extract_field_spec(obj: Seq<char>, field: Seq<char>) -> Seq<char> {
    match usable_capture(field_capture(obj, field, true)) {
        Some(v) => v,
        None => match usable_capture(field_capture(obj, field, false)) {
            Some(v) => v,
            None => Seq::empty(),
        },
    }
}

/// The value of a field from what its two patterns captured: the quoted
/// capture unless absent or `null`, else the bare capture under the same
/// condition, else the empty string.
pub fn usable_field_value(quoted: Option<String>, bare: Option<String>) -> (r: String)
    ensures
        r@ == (match usable_capture(opt_string_view(quoted)) {
            Some(v) => v,
            None => match usable_capture(opt_string_view(bare)) {
                Some(v) => v,
                None => Seq::empty(),
            },
        }),
{
    if let Some(v) = quoted {
        if !v.eq(&String::from_str("null")) {
            return v;
        }
    }
    if let Some(v) = bare {
        if !v.eq(&String::from_str("null")) {
            return v;
        }
    }
    String::new()
}

/// The value of `field` in the service object `obj` (empty when absent or
/// `null`). The field name is one of the service's: plain, so that the
/// patterns built from it read it literally, and short enough for them to
/// compile.
pub fn extract_field(obj: &str, field: &str) -> (r: String)
    requires
        usable_field_name(field@),
    ensures
        r@ == extract_field_spec(obj@, field@),
{
    let mut quoted = field.to_owned();
    quoted.append(":\"(.*?)\"");
    let mut bare = field.to_owned();
    bare.append(":([^,}]*)");
    assert(quoted@ == quoted_field_pattern(field@));
    assert(bare@ == bare_field_pattern(field@));
    let first = regex_capture(quoted.as_str(), obj);
    let second = regex_capture(bare.as_str(), obj);
    usable_field_value(first, second)
}

// ---------------------------------------------------------------------
// Unicode escapes
// ---------------------------------------------------------------------

/// The pattern of a `\uXXXX` escape.
pub open spec fn escape_pattern() -> Seq<char> {
    "\\\\u([0-9a-fA-F]{4})"@
}

/// A `\uXXXX` escape starts at position `i`: a backslash, `u`, and four
/// hexadecimal digits.
pub open spec fn escape_at(s: Seq<char>, i: int) -> bool {
    &&& 0 <= i && i + 6 <= s.len()
    &&& s[i] == '\\'
    &&& s[i + 1] == 'u'
    &&& forall|k: int| i + 2 <= k < i + 6 ==> is_radix_digit(#[trigger] s[k], 16)
}

/// `s` with its escapes replaced from left to right: where an escape
/// starts, it becomes `escape_replacement_spec` of its four digits and the
/// reading goes on after it; any other character is kept.
pub open spec fn decoded_escapes(s: Seq<char>) -> Seq<char>
    decreases s.len(),
{
    if s.len() == 0 {
        Seq::empty()
    } else if escape_at(s, 0) {
        escape_replacement_spec(s.subrange(2, 6)) + decoded_escapes(s.skip(6))
    } else {
        seq![s[0]] + decoded_escapes(s.skip(1))
    }
}

/// What one escape turns into: the character whose code is the
/// hexadecimal number (0 when it does not read as one), or `?` when that
/// code is not a character.
pub open spec fn escape_replacement_spec(hex: Seq<char>) -> Seq<char> {
    let code: u32 = match parse_unsigned_seq(hex, 16, u32::MAX) {
        Some(v) => v,
        None => 0,
    };
    if is_scalar_value(code) {
        seq![code as char]
    } else {
        seq!['?']
    }
}

/// The text that replaces one `\uXXXX` escape whose digits are `hex`.
pub fn escape_replacement(hex: &str) -> (r: String)
    ensures
        r@ == escape_replacement_spec(hex@),
{
    let digits = chars_of(hex);
    let code: u32 = match parse_unsigned(&digits, 16, 0xFFFF_FFFF) {
        Some(v) => v,
        None => 0,
    };
    let c = match char_from_u32(code) {
        Some(c) => c,
        None => '?',
    };
    let mut r = String::new();
    crate::text::push_char(&mut r, c);
    r
}

/// `s` with every `\uXXXX` escape replaced by the character it encodes.
pub fn decode_unicode_escapes(s: &str) -> (r: String)
    ensures
        r@ == decoded_escapes(s@),
{
    regex_replace_escapes("\\\\u([0-9a-fA-F]{4})", s)
}

// ---------------------------------------------------------------------
// The restaurant's name
// ---------------------------------------------------------------------

/// The name the application knows for a restaurant code: the units of
/// the supported-units table as `unit - campus`, a few further codes by
/// their campus, and `Restaurante (ID <code>)` for any other code.
pub open spec fn fallback_name_spec(id: u32) -> Seq<char> {
    if id == 1 {
        "Central - São Paulo"@
    } else if id == 2 {
        "Prefeitura - São Paulo"@
    } else if id == 3 {
        "Física - São Paulo"@
    } else if id == 4 {
        "Química - São Paulo"@
    } else if id == 5 {
        "Restaurante das Químicas - Butantã"@
    } else if id == 6 {
        "Restaurante Central - Butantã"@
    } else if id == 7 {
        "Restaurante PUSP-C - Butantã"@
    } else if id == 8 {
        "Restaurante da Física - Butantã"@
    } else if id == 9 {
        "Escola de Enfermagem - Quadrilátero Saúde"@
    } else if id == 11 {
        "Faculdade de Direito - Largo São Francisco"@
    } else if id == 12 {
        "Enfermagem - São Paulo"@
    } else if id == 13 {
        "EACH - USP Leste"@
    } else if id == 14 {
        "Faculdade de Saúde Pública - Quadrilátero Saúde"@
    } else if id == 15 {
        "Restaurante de Piracicaba (ESALQ) - Piracicaba"@
    } else if id == 16 {
        "Restaurante de Pirassununga - Pirassununga"@
    } else if id == 17 {
        "Restaurante de Lorena (EEL) - Lorena"@
    } else if id == 18 {
        "Faculdade de Medicina - Pinheiros"@
    } else if id == 19 {
        "RU de Ribeirão Preto - Ribeirão Preto"@
    } else if id == 20 {
        "RU de Bauru - Bauru"@
    } else if id == 21 {
        "Restaurante de São Carlos (Área 1) - São Carlos"@
    } else if id == 22 {
        "Restaurante de São Carlos (Área 2) - São Carlos"@
    } else if id == 23 {
        "Oceanográfico - São Paulo"@
    } else {
        "Restaurante (ID "@ + decimal(id as nat) + ")"@
    }
}

/// The name the application knows for a restaurant code; codes it does not
/// know get `Restaurante (ID <code>)`.
pub fn get_hardcoded_name_fallback(id: u32) -> (r: String)
    ensures
        r@ == fallback_name_spec(id),
{
    if id == 1 {
        String::from_str("Central - São Paulo")
    } else if id == 2 {
        String::from_str("Prefeitura - São Paulo")
    } else if id == 3 {
        String::from_str("Física - São Paulo")
    } else if id == 4 {
        String::from_str("Química - São Paulo")
    } else if id == 5 {
        String::from_str("Restaurante das Químicas - Butantã")
    } else if id == 6 {
        String::from_str("Restaurante Central - Butantã")
    } else if id == 7 {
        String::from_str("Restaurante PUSP-C - Butantã")
    } else if id == 8 {
        String::from_str("Restaurante da Física - Butantã")
    } else if id == 9 {
        String::from_str("Escola de Enfermagem - Quadrilátero Saúde")
    } else if id == 11 {
        String::from_str("Faculdade de Direito - Largo São Francisco")
    } else if id == 12 {
        String::from_str("Enfermagem - São Paulo")
    } else if id == 13 {
        String::from_str("EACH - USP Leste")
    } else if id == 14 {
        String::from_str("Faculdade de Saúde Pública - Quadrilátero Saúde")
    } else if id == 15 {
        String::from_str("Restaurante de Piracicaba (ESALQ) - Piracicaba")
    } else if id == 16 {
        String::from_str("Restaurante de Pirassununga - Pirassununga")
    } else if id == 17 {
        String::from_str("Restaurante de Lorena (EEL) - Lorena")
    } else if id == 18 {
        String::from_str("Faculdade de Medicina - Pinheiros")
    } else if id == 19 {
        String::from_str("RU de Ribeirão Preto - Ribeirão Preto")
    } else if id == 20 {
        String::from_str("RU de Bauru - Bauru")
    } else if id == 21 {
        String::from_str("Restaurante de São Carlos (Área 1) - São Carlos")
    } else if id == 22 {
        String::from_str("Restaurante de São Carlos (Área 2) - São Carlos")
    } else if id == 23 {
        String::from_str("Oceanográfico - São Paulo")
    } else {
        let mut r = String::from_str("Restaurante (ID ");
        let n = decimal_string(id as u64);
        r.append(n.as_str());
        r.append(")");
        r
    }
}

/// The name the service's reply gives the restaurant: the quoted value of
/// its `nomrtn` field.
pub open spec fn reply_name_capture(reply: Seq<char>) -> Option<Seq<char>> {
    quoted_capture(reply, "nomrtn"@)
}

/// A name with the HTML entities the service uses replaced by their
/// letters.
pub open spec fn unescape_entities_spec(n: Seq<char>) -> Seq<char> {
    replace_seq(
        replace_seq(
            replace_seq(
                replace_seq(
                    replace_seq(replace_seq(n, "&iacute;"@, "í"@), "&aacute;"@, "á"@),
                    "&otilde;"@,
                    "õ"@,
                ),
                "&Ccedil;"@,
                "Ç"@,
            ),
            "&ccedil;"@,
            "ç"@,
        ),
        "&atilde;"@,
        "ã"@,
    )
}

/// The restaurant's name given what the name pattern captured in the
/// reply: a captured name other than empty or `null`, with its entities
/// replaced, else the known name of the code.
pub open spec fn restaurant_name_spec(unit_code: u32, captured: Option<Seq<char>>) -> Seq<char> {
    match captured {
        Some(n) => if n != "null"@ && n.len() > 0 {
            unescape_entities_spec(n)
        } else {
            fallback_name_spec(unit_code)
        },
        None => fallback_name_spec(unit_code),
    }
}

/// Replaces one HTML entity by its letter.
fn replace_entity(v: &Vec<char>, entity: &str, letter: &str) -> (r: Vec<char>)
    requires
        entity@.len() > 0,
    ensures
        r@ == replace_seq(v@, entity@, letter@),
{
    let e = chars_of(entity);
    let l = chars_of(letter);
    replace(v, &e, &l)
}

/// A name with the HTML entities the service uses replaced by their
/// letters.
pub fn unescape_entities(n: &str) -> (r: String)
    ensures
        r@ == unescape_entities_spec(n@),
{
    proof {
        reveal_strlit("&iacute;");
        reveal_strlit("&aacute;");
        reveal_strlit("&otilde;");
        reveal_strlit("&Ccedil;");
        reveal_strlit("&ccedil;");
        reveal_strlit("&atilde;");
    }
    let v = chars_of(n);
    let v = replace_entity(&v, "&iacute;", "í");
    let v = replace_entity(&v, "&aacute;", "á");
    let v = replace_entity(&v, "&otilde;", "õ");
    let v = replace_entity(&v, "&Ccedil;", "Ç");
    let v = replace_entity(&v, "&ccedil;", "ç");
    let v = replace_entity(&v, "&atilde;", "ã");
    string_of(&v)
}

/// The restaurant's name from what the name pattern captured.
pub fn restaurant_name_from_capture(unit_code: u32, captured: Option<String>) -> (r: String)
    ensures
        r@ == restaurant_name_spec(unit_code, opt_string_view(captured)),
{
    match captured {
        Some(n) => {
            if !n.eq(&String::from_str("null")) && n.as_str().unicode_len() > 0 {
                unescape_entities(n.as_str())
            } else {
                get_hardcoded_name_fallback(unit_code)
            }
        },
        None => get_hardcoded_name_fallback(unit_code),
    }
}

/// The restaurant's name from the reply of the name service: the quoted
/// `nomrtn` value with its HTML entities decoded, or the known name of
/// `unit_code` when the reply has none (or it is empty or `null`).
pub fn restaurant_name(unit_code: u32, name_reply: &str) -> (r: String)
    ensures
        r@ == restaurant_name_spec(unit_code, reply_name_capture(name_reply@)),
{
    proof {
        reveal_strlit("nomrtn");
        reveal_strlit(":\"(.*?)\"");
        reveal_strlit("nomrtn:\"(.*?)\"");
        assert("nomrtn:\"(.*?)\""@ =~= quoted_field_pattern("nomrtn"@));
        assert(usable_field_name("nomrtn"@));
    }
    let captured = regex_capture("nomrtn:\"(.*?)\"", name_reply);
    restaurant_name_from_capture(unit_code, captured)
}

// ---------------------------------------------------------------------
// Meals
// ---------------------------------------------------------------------

/// The pieces trimmed, the empty ones left out.
pub open spec fn nonempty_trimmed(parts: Seq<Seq<char>>) -> Seq<Seq<char>>
    decreases parts.len(),
{
    if parts.len() == 0 {
        Seq::empty()
    } else {
        let prev = nonempty_trimmed(parts.drop_last());
        let t = trim_seq(parts.last());
        if t.len() > 0 {
            prev.push(t)
        } else {
            prev
        }
    }
}

/// The pieces trimmed, the empty ones left out.
pub fn trimmed_nonempty(parts: &Vec<Vec<char>>) -> (r: Vec<Vec<char>>)
    ensures
        views(r@) == nonempty_trimmed(views(parts@)),
{
    let mut r: Vec<Vec<char>> = Vec::new();
    let mut i: usize = 0;
    while i < parts.len()
        invariant
            i <= parts@.len(),
            views(r@) == nonempty_trimmed(views(parts@).take(i as int)),
        decreases parts@.len() - i,
    {
        assert(views(parts@).take(i + 1).drop_last() == views(parts@).take(i as int));
        assert(views(parts@).take(i + 1).last() == parts@[i as int]@);
        let t = trim(&parts[i]);
        if t.len() > 0 {
            let ghost old_r = r@;
            r.push(t);
            assert(views(r@) =~= views(old_r).push(t@));
        }
        i += 1;
    }
    assert(views(parts@).take(parts@.len() as int) == views(parts@));
    r
}

/// The comma-separated items of a line, trimmed, the empty ones left out.
pub open spec fn comma_items(line: Seq<char>) -> Seq<Seq<char>> {
    nonempty_trimmed(split_seq(line, ","@))
}

/// The meal text before the first `**`, with double line breaks made
/// single, slashes and backslashes made commas, and trimmed.
pub open spec fn cleaned_meal_text(decoded: Seq<char>) -> Seq<char> {
    let head = split_seq(decoded, "**"@)[0];
    trim_seq(
        replace_seq(
            replace_seq(
                replace_seq(replace_seq(head, "<br><br>"@, "<br>"@), "\\/"@, ","@),
                "/"@,
                ","@,
            ),
            "\\"@,
            ","@,
        ),
    )
}

/// The non-empty trimmed lines of a meal's text.
pub open spec fn meal_lines(decoded: Seq<char>) -> Seq<Seq<char>> {
    nonempty_trimmed(split_seq(cleaned_meal_text(decoded), "<br>"@))
}

/// A meal with nothing but its calories and type.
pub open spec fn blank_meal(calories: u32, meal_type: Seq<char>) -> MealView {
    MealView {
        opcoes: Seq::empty(),
        guarnicao: Seq::empty(),
        guarnicao_pvt: Seq::empty(),
        acompanhamento: Seq::empty(),
        salada: Seq::empty(),
        sobremesa: Seq::empty(),
        outros: Seq::empty(),
        calories,
        meal_type,
    }
}

/// The side dish of an `Opção:` line: the line without its label,
/// trimmed.
pub open spec fn option_text(line: Seq<char>) -> Seq<char> {
    trim_seq(replace_seq(replace_seq(line, "Opção:"@, ""@), "Opcao:"@, ""@))
}

/// How line `i` (from the third on) of `n` lines fills a meal: an
/// `Opção:`/`Opcao:` line (in any case) gives the side-dish option, a line
/// starting with `salada` the salad, the last but one the dessert, the
/// last the other items, and any other the first accompaniment.
pub open spec fn apply_meal_line(m: MealView, line: Seq<char>, i: int, n: int) -> MealView {
    let lower = lower_text(line);
    if starts_with_seq(lower, "opção:"@) || starts_with_seq(lower, "opcao:"@) {
        MealView { guarnicao_pvt: option_text(line), ..m }
    } else if starts_with_seq(lower, "salada"@) {
        MealView { salada: line, ..m }
    } else if i == n - 2 {
        MealView { sobremesa: line, ..m }
    } else if i == n - 1 {
        MealView { outros: comma_items(line), ..m }
    } else if m.acompanhamento.len() == 0 {
        MealView { acompanhamento: line, ..m }
    } else {
        m
    }
}

/// The meal after lines `2..k` of `lines` have been applied to `m`.
pub open spec fn apply_meal_lines(m: MealView, lines: Seq<Seq<char>>, k: int) -> MealView
    decreases k,
{
    if k <= 2 {
        m
    } else {
        apply_meal_line(apply_meal_lines(m, lines, k - 1), lines[k - 1], k - 1, lines.len() as int)
    }
}

/// The meal described by its lines: the first line's comma-separated
/// items are the options, the second is the side dish, the rest are
/// applied in order.
pub open spec fn meal_from_lines(lines: Seq<Seq<char>>, calories: u32, meal_type: Seq<char>) -> MealView {
    if lines.len() == 0 {
        blank_meal(calories, meal_type)
    } else {
        let base = MealView {
            opcoes: comma_items(lines[0]),
            guarnicao: if lines.len() > 1 {
                lines[1]
            } else {
                Seq::empty()
            },
            ..blank_meal(calories, meal_type)
        };
        apply_meal_lines(base, lines, lines.len() as int)
    }
}

/// The meal described by a decoded meal text.
pub open spec fn meal_from_decoded_spec(decoded: Seq<char>, calories: u32, meal_type: Seq<char>) -> MealView {
    meal_from_lines(meal_lines(decoded), calories, meal_type)
}

/// The meal described by a raw meal text from the service: its escapes
/// decoded, then read as `meal_from_decoded_spec`.
pub open spec fn smart_meal_spec(raw: Seq<char>, calories: u32, meal_type: Seq<char>) -> MealView {
    meal_from_decoded_spec(decoded_escapes(raw), calories, meal_type)
}

/// Replaces every `from` in `v` by `to`.
fn replace_lit(v: &Vec<char>, from: &str, to: &str) -> (r: Vec<char>)
    requires
        from@.len() > 0,
    ensures
        r@ == replace_seq(v@, from@, to@),
{
    let f = chars_of(from);
    let t = chars_of(to);
    replace(v, &f, &t)
}

/// The comma-separated items of a line.
fn comma_items_of(line: &Vec<char>) -> (r: Vec<String>)
    ensures
        string_views(r@) == comma_items(line@),
{
    proof {
        reveal_strlit(",");
    }
    let comma = chars_of(",");
    let parts = split(line, &comma);
    let items = trimmed_nonempty(&parts);
    strings_of(&items)
}

/// The non-empty trimmed lines of a decoded meal text.
pub fn meal_text_lines(decoded: &str) -> (r: Vec<Vec<char>>)
    ensures
        views(r@) == meal_lines(decoded@),
{
    proof {
        reveal_strlit("**");
        reveal_strlit("<br><br>");
        reveal_strlit("\\/");
        reveal_strlit("/");
        reveal_strlit("\\");
        reveal_strlit("<br>");
        lemma_split_nonempty(decoded@, "**"@);
    }
    let d = chars_of(decoded);
    let stars = chars_of("**");
    let pieces = split(&d, &stars);
    assert(views(pieces@).len() >= 1);
    let head = &pieces[0];
    let c = replace_lit(head, "<br><br>", "<br>");
    let c = replace_lit(&c, "\\/", ",");
    let c = replace_lit(&c, "/", ",");
    let c = replace_lit(&c, "\\", ",");
    let c = trim(&c);
    let br = chars_of("<br>");
    let raw_lines = split(&c, &br);
    trimmed_nonempty(&raw_lines)
}

/// Applies line `i` of `n` to the meal being built.
fn apply_line(meal: &mut Meal, line: &Vec<char>, i: usize, n: usize)
    ensures
        final(meal)@ == apply_meal_line(old(meal)@, line@, i as int, n as int),
{
    proof {
        reveal_strlit("Opção:");
        reveal_strlit("Opcao:");
    }
    let lower_str = to_lower(string_of(line).as_str());
    let lower = chars_of(lower_str.as_str());
    let opt1 = chars_of("opção:");
    let opt2 = chars_of("opcao:");
    let salad = chars_of("salada");
    if starts_with(&lower, &opt1) || starts_with(&lower, &opt2) {
        let t = replace_lit(line, "Opção:", "");
        let t = replace_lit(&t, "Opcao:", "");
        let t = trim(&t);
        meal.guarnicao_pvt = string_of(&t);
    } else if starts_with(&lower, &salad) {
        meal.salada = string_of(line);
    } else if n >= 2 && i == n - 2 {
        meal.sobremesa = string_of(line);
    } else if n >= 1 && i == n - 1 {
        meal.outros = comma_items_of(line);
    } else if meal.acompanhamento.as_str().is_empty() {
        meal.acompanhamento = string_of(line);
    }
}

/// The meal described by a decoded meal text.
pub fn meal_from_decoded(decoded: &str, calories: u32, meal_type: &str) -> (r: Meal)
    ensures
        r@ == meal_from_decoded_spec(decoded@, calories, meal_type@),
{
    let lines = meal_text_lines(decoded);
    let ghost ls = views(lines@);
    let mut meal = Meal {
        opcoes: Vec::new(),
        guarnicao: String::new(),
        guarnicao_pvt: String::new(),
        acompanhamento: String::new(),
        salada: String::new(),
        sobremesa: String::new(),
        outros: Vec::new(),
        calories,
        meal_type: meal_type.to_owned(),
    };
    assert(string_views(Seq::<String>::empty()) =~= Seq::<Seq<char>>::empty());
    if lines.len() == 0 {
        assert(meal@ == blank_meal(calories, meal_type@));
        return meal;
    }
    meal.opcoes = comma_items_of(&lines[0]);
    if lines.len() > 1 {
        meal.guarnicao = string_of(&lines[1]);
    }
    let n = lines.len();
    let mut i: usize = 2;
    while i < n
        invariant
            n == lines@.len(),
            n >= 1,
            ls == views(lines@),
            2 <= i,
            n < 2 ==> i == 2,
            n >= 2 ==> i <= n,
            meal@ == apply_meal_lines(
                MealView {
                    opcoes: comma_items(ls[0]),
                    guarnicao: if ls.len() > 1 {
                        ls[1]
                    } else {
                        Seq::empty()
                    },
                    ..blank_meal(calories, meal_type@)
                },
                ls,
                i as int,
            ),
        decreases n - i,
    {
        apply_line(&mut meal, &lines[i], i, n);
        i += 1;
    }
    meal
}

/// The meal described by a raw meal text from the service (escapes
/// decoded first), with the given calories and type.
pub fn parse_smart_meal(raw: &str, calories: u32, meal_type: &str) -> (r: Meal)
    ensures
        r@ == smart_meal_spec(raw@, calories, meal_type@),
{
    let decoded = decode_unicode_escapes(raw);
    meal_from_decoded(decoded.as_str(), calories, meal_type)
}

// ---------------------------------------------------------------------
// The week's menu
// ---------------------------------------------------------------------

/// The objects of the service's reply: the text from just after the first
/// `[{` to just before the last `}]`, split at each `},{` (none when
/// either marker is missing).
pub open spec fn dwr_objects(resp: Seq<char>) -> Seq<Seq<char>> {
    match first_occurrence(resp, "[{"@) {
        Some(a) => match last_occurrence(resp, "}]"@) {
            Some(b) => split_seq(resp.subrange(a + 1int, b + 1int), "},{"@),
            None => Seq::empty(),
        },
        None => Seq::empty(),
    }
}

/// The last `}]` does not come before the first `[{` (where it does, the
/// text between them cannot be taken).
pub open spec fn markers_in_order(resp: Seq<char>) -> bool {
    match first_occurrence(resp, "[{"@) {
        Some(a) => match last_occurrence(resp, "}]"@) {
            Some(b) => a <= b,
            None => true,
        },
        None => true,
    }
}

/// An object is skipped when its day text is empty, `null`, or says the
/// restaurant is closed (`fechado`, in any case).
pub open spec fn object_skipped(obj: Seq<char>) -> bool {
    day_text_skipped(extract_field_spec(obj, "cdpdia"@))
}

/// A day text is skipped when it is empty, `null`, or says the restaurant
/// is closed (`fechado`, in any case).
pub open spec fn day_text_skipped(c: Seq<char>) -> bool {
    c.len() == 0 || c == "null"@ || contains_seq(lower_text(c), "fechado"@)
}

/// A date with its escaped slashes made plain.
pub open spec fn normalized_date(d: Seq<char>) -> Seq<char> {
    replace_seq(replace_seq(d, "\\u002F"@, "/"@), "\\/"@, "/"@)
}

/// The date of an object, slashes made plain.
pub open spec fn object_date(obj: Seq<char>) -> Seq<char> {
    normalized_date(extract_field_spec(obj, "dtainismncdp"@))
}

/// The first five bytes of a date can be taken: it is shorter, or byte 5
/// falls between characters.
pub open spec fn date_display_defined(d: Seq<char>) -> bool {
    utf8_len(d) < 5 || is_byte_boundary(d, 5)
}

/// The shown date: its first five bytes (`dd/mm`), or all of it when
/// shorter.
pub open spec fn date_display_spec(d: Seq<char>) -> Seq<char> {
    if utf8_len(d) >= 5 {
        d.take(chars_before_byte(d, 5) as int)
    } else {
        d
    }
}

/// An object can be read: it is skipped, or its date can be shortened and
/// its day number is not 0 (missing), for which the weekday `0 - 1`
/// overflows.
pub open spec fn object_defined(obj: Seq<char>) -> bool {
    object_skipped(obj) || (date_display_defined(object_date(obj)) && number_or_zero(
        extract_field_spec(obj, "diasemana"@),
    ) != 0)
}

/// A decimal number, 0 when the text does not read as one.
pub open spec fn number_or_zero(s: Seq<char>) -> u32 {
    match parse_u32_seq(s) {
        Some(v) => v,
        None => 0,
    }
}

/// The service numbers days from Sunday = 1; the menu from Monday = 1 to
/// Sunday = 7. (A missing day, 0, makes its object unreadable; the value
/// given here for it is never used for a readable reply.)
pub open spec fn weekday_number(raw: u32) -> u32 {
    if raw == 1 {
        7
    } else if raw == 0 {
        0
    } else {
        (raw - 1) as u32
    }
}

/// The weekday of an object.
pub open spec fn object_weekday(obj: Seq<char>) -> u32 {
    weekday_number(number_or_zero(extract_field_spec(obj, "diasemana"@)))
}

/// The meal of an object.
pub open spec fn object_meal(obj: Seq<char>) -> MealView {
    smart_meal_spec(
        extract_field_spec(obj, "cdpdia"@),
        number_or_zero(extract_field_spec(obj, "vlrclorfi"@)),
        extract_field_spec(obj, "tiprfi"@),
    )
}

/// An object's meal is lunch exactly when its type is `A`.
pub open spec fn object_is_lunch(obj: Seq<char>) -> bool {
    extract_field_spec(obj, "tiprfi"@) == "A"@
}

/// A day with its lunch or its dinner set to `m`.
pub open spec fn with_meal(d: DayMenuView, lunch: bool, m: MealView) -> DayMenuView {
    if lunch {
        DayMenuView { almoco: Some(m), ..d }
    } else {
        DayMenuView { jantar: Some(m), ..d }
    }
}

/// Adds a meal to the days: into the first day with its weekday, or into
/// a new day at the end.
pub open spec fn merge_meal(
    days: Seq<DayMenuView>,
    weekday: u32,
    date: Seq<char>,
    lunch: bool,
    m: MealView,
) -> Seq<DayMenuView> {
    match day_position(days, weekday as int) {
        Some(j) => days.update(j as int, with_meal(days[j as int], lunch, m)),
        None => days.push(
            with_meal(DayMenuView { date, weekday, almoco: None, jantar: None }, lunch, m),
        ),
    }
}

/// The days after one more object has been read.
pub open spec fn add_object(days: Seq<DayMenuView>, obj: Seq<char>) -> Seq<DayMenuView> {
    if object_skipped(obj) {
        days
    } else {
        merge_meal(
            days,
            object_weekday(obj),
            date_display_spec(object_date(obj)),
            object_is_lunch(obj),
            object_meal(obj),
        )
    }
}

/// The days after one more object has been read, from the values of its
/// fields and its decoded day text.
pub open spec fn add_fields(
    days: Seq<DayMenuView>,
    cdpdia: Seq<char>,
    diasemana: Seq<char>,
    dtainismncdp: Seq<char>,
    tiprfi: Seq<char>,
    vlrclorfi: Seq<char>,
    decoded: Seq<char>,
) -> Seq<DayMenuView> {
    if day_text_skipped(cdpdia) {
        days
    } else {
        merge_meal(
            days,
            weekday_number(number_or_zero(diasemana)),
            date_display_spec(normalized_date(dtainismncdp)),
            tiprfi == "A"@,
            meal_from_decoded_spec(decoded, number_or_zero(vlrclorfi), tiprfi),
        )
    }
}

/// The days read from the objects in order.
pub open spec fn collect_days(objs: Seq<Seq<char>>) -> Seq<DayMenuView>
    decreases objs.len(),
{
    if objs.len() == 0 {
        Seq::empty()
    } else {
        add_object(collect_days(objs.drop_last()), objs.last())
    }
}

/// Inserts a day after every day whose weekday is not greater.
pub open spec fn insert_day(sorted: Seq<DayMenuView>, d: DayMenuView) -> Seq<DayMenuView>
    decreases sorted.len(),
{
    if sorted.len() == 0 {
        seq![d]
    } else if sorted.last().weekday <= d.weekday {
        sorted.push(d)
    } else {
        insert_day(sorted.drop_last(), d).push(sorted.last())
    }
}

/// The days in weekday order, days with the same weekday kept in their
/// order (a stable sort).
pub open spec fn sort_days(days: Seq<DayMenuView>) -> Seq<DayMenuView>
    decreases days.len(),
{
    if days.len() == 0 {
        Seq::empty()
    } else {
        insert_day(sort_days(days.drop_last()), days.last())
    }
}

/// The reply can be read without failing: the markers are in order and
/// every object can be read.
pub open spec fn dwr_defined(resp: Seq<char>) -> bool {
    markers_in_order(resp) && forall|i: int|
        0 <= i < dwr_objects(resp).len() ==> object_defined(#[trigger] dwr_objects(resp)[i])
}

/// The menu read from a reply: the generic restaurant name and the days of
/// its objects in weekday order.
pub open spec fn dwr_menu(resp: Seq<char>) -> MenuDataView {
    MenuDataView {
        restaurant_name: "Restaurante USP"@,
        days: sort_days(collect_days(dwr_objects(resp))),
    }
}

/// Inserting at position `p` is `insert_day` when `p` follows every day
/// whose weekday is not greater and precedes the greater ones.
proof fn lemma_insert_day_at(s: Seq<DayMenuView>, d: DayMenuView, p: int)
    requires
        0 <= p <= s.len(),
        p == 0 || s[p - 1].weekday <= d.weekday,
        forall|k: int| p <= k < s.len() ==> s[k].weekday > d.weekday,
    ensures
        insert_day(s, d) == s.take(p) + seq![d] + s.skip(p),
    decreases s.len(),
{
    if s.len() == 0 {
        assert(s.take(p) + seq![d] + s.skip(p) =~= seq![d]);
    } else if s.last().weekday <= d.weekday {
        assert(p == s.len());
        assert(s.take(p) + seq![d] + s.skip(p) =~= s.push(d));
    } else {
        let t = s.drop_last();
        assert(forall|k: int| p <= k < t.len() ==> t[k] == s[k]);
        lemma_insert_day_at(t, d, p);
        assert(t.take(p) + seq![d] + t.skip(p) + seq![s.last()] =~= s.take(p) + seq![d] + s.skip(
            p,
        ));
    }
}

/// Inserts a day into weekday order, after the days not greater.
fn insert_day_sorted(sorted: &mut Vec<DayMenu>, d: DayMenu)
    ensures
        day_views(final(sorted)@) == insert_day(day_views(old(sorted)@), d@),
{
    let ghost s = day_views(sorted@);
    let mut p: usize = sorted.len();
    while p > 0 && sorted[p - 1].weekday > d.weekday
        invariant
            p <= sorted@.len(),
            s == day_views(sorted@),
            forall|k: int| p <= k < s.len() ==> s[k].weekday > d.weekday,
        decreases p,
    {
        p -= 1;
    }
    proof {
        lemma_insert_day_at(s, d@, p as int);
    }
    sorted.insert(p, d);
    assert(day_views(sorted@) =~= s.take(p as int) + seq![d@] + s.skip(p as int));
}

/// The days in weekday order (a stable insertion sort).
fn sort_days_by_weekday(days: Vec<DayMenu>) -> (r: Vec<DayMenu>)
    ensures
        day_views(r@) == sort_days(day_views(days@)),
{
    let ghost orig = day_views(days@);
    let mut rest = days;
    let mut sorted: Vec<DayMenu> = Vec::new();
    let ghost mut k: int = 0;
    while rest.len() > 0
        invariant
            0 <= k <= orig.len(),
            rest@.len() + k == orig.len(),
            day_views(rest@) == orig.skip(k),
            day_views(sorted@) == sort_days(orig.take(k)),
        decreases rest@.len(),
    {
        let ghost before = rest@;
        assert(day_views(before)[0] == before[0]@);
        assert(orig.skip(k)[0] == orig[k]);
        let d = rest.remove(0);
        assert(d@ == orig[k]);
        assert(rest@ == before.remove(0));
        assert(day_views(rest@) =~= orig.skip(k + 1)) by {
            assert forall|j: int| 0 <= j < rest@.len() implies day_views(rest@)[j] == orig.skip(
                k + 1,
            )[j] by {
                assert(rest@[j] == before[j + 1]);
                assert(day_views(before)[j + 1] == orig.skip(k)[j + 1]);
            }
        }
        assert(orig.take(k + 1).drop_last() =~= orig.take(k));
        insert_day_sorted(&mut sorted, d);
        proof {
            k = k + 1;
        }
    }
    assert(orig.take(k) =~= orig);
    sorted
}

/// Puts a meal into the days: into the first day with its weekday, or
/// into a new day at the end.
fn merge_meal_into(days: &mut Vec<DayMenu>, weekday: u32, date: String, lunch: bool, meal: Meal)
    ensures
        day_views(final(days)@) == merge_meal(
            day_views(old(days)@),
            weekday,
            date@,
            lunch,
            meal@,
        ),
{
    let ghost s = day_views(days@);
    match find_day_index(days, weekday) {
        Some(j) => {
            let mut d = days.remove(j);
            assert(d@ == s[j as int]);
            if lunch {
                d.almoco = Some(meal);
            } else {
                d.jantar = Some(meal);
            }
            let ghost dv = d@;
            days.insert(j, d);
            assert(day_views(days@) =~= s.update(j as int, dv));
        },
        None => {
            let mut d = DayMenu { date, weekday, almoco: None, jantar: None };
            if lunch {
                d.almoco = Some(meal);
            } else {
                d.jantar = Some(meal);
            }
            let ghost dv = d@;
            days.push(d);
            assert(day_views(days@) =~= s.push(dv));
        },
    }
}

/// A decimal number, 0 when the text does not read as one.
fn number_or_zero_of(s: &str) -> (r: u32)
    ensures
        r == number_or_zero(s@),
{
    let v = chars_of(s);
    match parse_u32(&v) {
        Some(n) => n,
        None => 0,
    }
}

/// Reads one object, given by the values of its fields and its decoded
/// day text, into the days: nothing for a skipped object, else its meal
/// into its day. `false` exactly when the object is not skipped and its
/// date cannot be shortened or its day number is 0 (the days are then left
/// as they are).
pub fn add_object_fields(
    days: &mut Vec<DayMenu>,
    cdpdia: &str,
    diasemana: &str,
    dtainismncdp: &str,
    tiprfi: &str,
    vlrclorfi: &str,
    decoded: &str,
) -> (ok: bool)
    ensures
        ok == (day_text_skipped(cdpdia@) || (date_display_defined(normalized_date(dtainismncdp@))
            && number_or_zero(diasemana@) != 0)),
        ok ==> day_views(final(days)@) == add_fields(
            day_views(old(days)@),
            cdpdia@,
            diasemana@,
            dtainismncdp@,
            tiprfi@,
            vlrclorfi@,
            decoded@,
        ),
        !ok ==> final(days)@ == old(days)@,
{
    proof {
        reveal_strlit("\\u002F");
        reveal_strlit("\\/");
    }
    let c = chars_of(cdpdia);
    let lower = to_lower(cdpdia);
    let lower_chars = chars_of(lower.as_str());
    if c.len() == 0 || same_chars(&c, &chars_of("null")) || contains(
        &lower_chars,
        &chars_of("fechado"),
    ) {
        return true;
    }
    let raw_date = chars_of(dtainismncdp);
    let full = replace(&raw_date, &chars_of("\\u002F"), &chars_of("/"));
    let full = replace(&full, &chars_of("\\/"), &chars_of("/"));
    let scanned = scan_bytes(&full, 5);
    let date = if scanned.0 {
        match scanned.1 {
            Some(k) => slice_chars(&full, 0, k),
            None => {
                return false;
            },
        }
    } else {
        full
    };
    let weekday_raw = number_or_zero_of(diasemana);
    if weekday_raw == 0 {
        return false;
    }
    let calories = number_or_zero_of(vlrclorfi);
    let weekday: u32 = if weekday_raw == 1 {
        7
    } else {
        weekday_raw - 1
    };
    let meal = meal_from_decoded(decoded, calories, tiprfi);
    let lunch = tiprfi.to_owned().eq(&String::from_str("A"));
    merge_meal_into(days, weekday, string_of(&date), lunch, meal);
    true
}

/// Reads one object into the days; `false` when its date cannot be
/// shortened or its day number is 0 (the days are then left as they are).
fn add_object_into(days: &mut Vec<DayMenu>, obj: &Vec<char>) -> (ok: bool)
    ensures
        ok == object_defined(obj@),
        ok ==> day_views(final(days)@) == add_object(day_views(old(days)@), obj@),
{
    let o = string_of(obj);
    proof {
        lemma_object_fields_plain();
    }
    let cdpdia = extract_field(o.as_str(), "cdpdia");
    let diasemana = extract_field(o.as_str(), "diasemana");
    let dtaini = extract_field(o.as_str(), "dtainismncdp");
    let tiprfi = extract_field(o.as_str(), "tiprfi");
    let vlrclorfi = extract_field(o.as_str(), "vlrclorfi");
    let decoded = decode_unicode_escapes(cdpdia.as_str());
    add_object_fields(
        days,
        cdpdia.as_str(),
        diasemana.as_str(),
        dtaini.as_str(),
        tiprfi.as_str(),
        vlrclorfi.as_str(),
        decoded.as_str(),
    )
}

/// Reads the objects in order; `None` exactly when one cannot be read.
fn read_objects(objs: &Vec<Vec<char>>) -> (r: Option<Vec<DayMenu>>)
    ensures
        match r {
            Some(days) => (forall|j: int|
                0 <= j < objs@.len() ==> object_defined(#[trigger] views(objs@)[j])) && day_views(
                days@,
            ) == collect_days(views(objs@)),
            None => exists|j: int| 0 <= j < objs@.len() && !object_defined(#[trigger] views(objs@)[j]),
        },
{
    let ghost objs_spec = views(objs@);
    let mut days: Vec<DayMenu> = Vec::new();
    let mut i: usize = 0;
    while i < objs.len()
        invariant
            i <= objs@.len(),
            objs_spec == views(objs@),
            day_views(days@) == collect_days(objs_spec.take(i as int)),
            forall|j: int| 0 <= j < i ==> object_defined(#[trigger] objs_spec[j]),
        decreases objs@.len() - i,
    {
        assert(objs_spec.take(i + 1).drop_last() =~= objs_spec.take(i as int));
        assert(objs_spec.take(i + 1).last() == objs@[i as int]@);
        if !add_object_into(&mut days, &objs[i]) {
            assert(!object_defined(objs_spec[i as int]));
            return None;
        }
        i += 1;
    }
    assert(objs_spec.take(objs@.len() as int) =~= objs_spec);
    Some(days)
}

/// The objects of a reply whose markers are in order.
fn reply_objects(resp: &str) -> (r: Option<Vec<Vec<char>>>)
    ensures
        match r {
            Some(objs) => markers_in_order(resp@) && views(objs@) == dwr_objects(resp@),
            None => !markers_in_order(resp@),
        },
{
    proof {
        reveal_strlit("[{");
        reveal_strlit("}]");
        reveal_strlit("},{");
    }
    let text = chars_of(resp);
    let n = text.len();
    let open = chars_of("[{");
    let close = chars_of("}]");
    match find(&text, &open) {
        Some(a) => {
            match rfind(&text, &close) {
                Some(b) => {
                    if a > b {
                        return None;
                    }
                    proof {
                        lemma_last_occurrence_upto(text@, close@, text@.len() - close@.len());
                    }
                    let content = slice_chars(&text, a + 1, b + 1);
                    let sep = chars_of("},{");
                    Some(split(&content, &sep))
                },
                None => Some(Vec::new()),
            }
        },
        None => Some(Vec::new()),
    }
}

/// Reads a reply, giving `None` exactly where the reply cannot be read.
fn read_dwr_reply(resp: &str) -> (r: Option<MenuData>)
    ensures
        match r {
            Some(m) => dwr_defined(resp@) && m@ == dwr_menu(resp@),
            None => !dwr_defined(resp@),
        },
{
    let objs = match reply_objects(resp) {
        Some(o) => o,
        None => {
            return None;
        },
    };
    let days = match read_objects(&objs) {
        Some(d) => d,
        None => {
            return None;
        },
    };
    let sorted = sort_days_by_weekday(days);
    Some(MenuData { restaurant_name: String::from_str("Restaurante USP"), days: sorted })
}

/// Whether a reply of the menu service can be read without failing.
pub fn dwr_reply_is_readable(resp: &str) -> (r: bool)
    ensures
        r == dwr_defined(resp@),
{
    read_dwr_reply(resp).is_some()
}

/// The week's menu in a reply of the menu service, days in weekday order
/// under the generic restaurant name.
pub fn parse_dwr_response(resp: &str) -> (m: MenuData)
    requires
        dwr_defined(resp@),
    ensures
        m@ == dwr_menu(resp@),
{
    match read_dwr_reply(resp) {
        Some(m) => m,
        None => {
            assert(false);
            MenuData::empty()
        },
    }
}

// ---------------------------------------------------------------------
// Requests and the refreshed cache
// ---------------------------------------------------------------------

/// The address of the restaurant's menu page, visited first to open a
/// session.
pub open spec fn home_url_spec(unit_code: u32) -> Seq<char> {
    "https://uspdigital.usp.br/rucard/Jsp/cardapioSAS.jsp?codrtn="@ + decimal(unit_code as nat)
}

/// The address of the restaurant's menu page.
pub fn home_url(unit_code: u32) -> (r: String)
    ensures
        r@ == home_url_spec(unit_code),
{
    let mut r = String::from_str("https://uspdigital.usp.br/rucard/Jsp/cardapioSAS.jsp?codrtn=");
    let n = decimal_string(unit_code as u64);
    r.append(n.as_str());
    r
}

/// The address of the service method that gives the restaurant's name.
pub fn name_service_url() -> (r: String)
    ensures
        r@ == "https://uspdigital.usp.br/rucard/dwr/call/plaincall/CardapioControleDWR.obterRestauranteUsp.dwr"@,
{
    String::from_str(
        "https://uspdigital.usp.br/rucard/dwr/call/plaincall/CardapioControleDWR.obterRestauranteUsp.dwr",
    )
}

/// The address of the service method that gives the week's menu.
pub fn menu_service_url() -> (r: String)
    ensures
        r@ == "https://uspdigital.usp.br/rucard/dwr/call/plaincall/CardapioControleDWR.obterCardapioRestUSP.dwr"@,
{
    String::from_str(
        "https://uspdigital.usp.br/rucard/dwr/call/plaincall/CardapioControleDWR.obterCardapioRestUSP.dwr",
    )
}

/// The plain-text body of a call of service method `method` for a
/// restaurant code.
pub open spec fn dwr_request_body_spec(method: Seq<char>, unit_code: u32) -> Seq<char> {
    "callCount=1\nwindowName=\nc0-scriptName=CardapioControleDWR\nc0-methodName="@ + method
        + "\nc0-id=0\nc0-param0=string:"@ + decimal(unit_code as nat)
        + "\nbatchId=0\ninstanceId=0\npage=%2Frucard%2FJsp%2FcardapioSAS.jsp%3Fcodrtn%3D"@
        + decimal(unit_code as nat) + "\nscriptSessionId="@
}

/// The plain-text body of a call of service method `method` for a
/// restaurant code.
pub fn dwr_request_body(method: &str, unit_code: u32) -> (r: String)
    ensures
        r@ == dwr_request_body_spec(method@, unit_code),
{
    let n = decimal_string(unit_code as u64);
    let mut r = String::from_str(
        "callCount=1\nwindowName=\nc0-scriptName=CardapioControleDWR\nc0-methodName=",
    );
    r.append(method);
    r.append("\nc0-id=0\nc0-param0=string:");
    r.append(n.as_str());
    r.append("\nbatchId=0\ninstanceId=0\npage=%2Frucard%2FJsp%2FcardapioSAS.jsp%3Fcodrtn%3D");
    r.append(n.as_str());
    r.append("\nscriptSessionId=");
    r
}

/// The body of the call that asks for the restaurant's name.
pub fn name_request_body(unit_code: u32) -> (r: String)
    ensures
        r@ == dwr_request_body_spec("obterRestauranteUsp"@, unit_code),
{
    dwr_request_body("obterRestauranteUsp", unit_code)
}

/// The body of the call that asks for the week's menu.
pub fn menu_request_body(unit_code: u32) -> (r: String)
    ensures
        r@ == dwr_request_body_spec("obterCardapioRestUSP"@, unit_code),
{
    dwr_request_body("obterCardapioRestUSP", unit_code)
}

/// The menu to cache after both service calls answered: the week read
/// from the menu reply under the name read from the name reply. `None`
/// exactly when the menu reply cannot be read.
pub fn menu_from_replies(unit_code: u32, name_reply: &str, menu_reply: &str) -> (r: Option<
    MenuData,
>)
    ensures
        match r {
            Some(m) => dwr_defined(menu_reply@) && m@ == MenuDataView {
                restaurant_name: restaurant_name_spec(unit_code, reply_name_capture(name_reply@)),
                days: dwr_menu(menu_reply@).days,
            },
            None => !dwr_defined(menu_reply@),
        },
{
    let name = restaurant_name(unit_code, name_reply);
    if !dwr_reply_is_readable(menu_reply) {
        return None;
    }
    let mut menu = parse_dwr_response(menu_reply);
    menu.restaurant_name = name;
    Some(menu)
}

// ---------------------------------------------------------------------
// Laws of the week's menu
// ---------------------------------------------------------------------

/// No two days share a weekday.
pub open spec fn weekdays_distinct(s: Seq<DayMenuView>) -> bool {
    forall|i: int, j: int| 0 <= i < j < s.len() ==> s[i].weekday != s[j].weekday
}

/// The days are in strictly increasing weekday order.
pub open spec fn weekdays_increasing(s: Seq<DayMenuView>) -> bool {
    forall|i: int, j: int| 0 <= i < j < s.len() ==> s[i].weekday < s[j].weekday
}

/// Every day has its lunch or its dinner.
pub open spec fn every_day_has_meal(s: Seq<DayMenuView>) -> bool {
    forall|i: int| 0 <= i < s.len() ==> (#[trigger] s[i]).almoco is Some || s[i].jantar is Some
}

proof fn lemma_collect_days(objs: Seq<Seq<char>>)
    ensures
        weekdays_distinct(collect_days(objs)),
        every_day_has_meal(collect_days(objs)),
    decreases objs.len(),
{
    if objs.len() > 0 {
        lemma_collect_days(objs.drop_last());
        let days = collect_days(objs.drop_last());
        let o = objs.last();
        if !object_skipped(o) {
            let wd = object_weekday(o);
            lemma_day_position(days, wd as int);
            let r = collect_days(objs);
            match day_position(days, wd as int) {
                Some(j) => {
                    assert(forall|k: int| 0 <= k < days.len() ==> r[k].weekday == days[k].weekday);
                    assert(forall|k: int|
                        0 <= k < days.len() && k != j ==> #[trigger] r[k] == days[k]);
                },
                None => {
                    assert(forall|k: int| 0 <= k < days.len() ==> #[trigger] r[k] == days[k]);
                },
            }
        }
    }
}

proof fn lemma_insert_day(s: Seq<DayMenuView>, d: DayMenuView)
    ensures
        insert_day(s, d).len() == s.len() + 1,
        forall|x: DayMenuView| #[trigger] insert_day(s, d).contains(x) <==> (s.contains(x) || x == d),
        weekdays_increasing(s) && (forall|k: int| 0 <= k < s.len() ==> s[k].weekday != d.weekday)
            ==> weekdays_increasing(insert_day(s, d)),
    decreases s.len(),
{
    let r = insert_day(s, d);
    if s.len() == 0 {
        assert forall|x: DayMenuView| #[trigger] r.contains(x) <==> (s.contains(x) || x == d) by {
            if r.contains(x) {
                assert(r[0] == d);
            }
            if x == d {
                assert(r[0] == d);
            }
        }
    } else if s.last().weekday <= d.weekday {
        assert forall|x: DayMenuView| #[trigger] r.contains(x) <==> (s.contains(x) || x == d) by {
            if r.contains(x) {
                let i = choose|i: int| 0 <= i < r.len() && r[i] == x;
                if i < s.len() {
                    assert(s[i] == x);
                }
            }
            if s.contains(x) {
                let i = choose|i: int| 0 <= i < s.len() && s[i] == x;
                assert(r[i] == x);
            }
            if x == d {
                assert(r[s.len() as int] == d);
            }
        }
    } else {
        let t = s.drop_last();
        lemma_insert_day(t, d);
        let q = insert_day(t, d);
        assert(r == q.push(s.last()));
        assert forall|x: DayMenuView| #[trigger] r.contains(x) <==> (s.contains(x) || x == d) by {
            if r.contains(x) {
                let i = choose|i: int| 0 <= i < r.len() && r[i] == x;
                if i < q.len() {
                    assert(q[i] == x);
                    assert(q.contains(x));
                    if t.contains(x) {
                        let k = choose|k: int| 0 <= k < t.len() && t[k] == x;
                        assert(s[k] == x);
                    }
                } else {
                    assert(s[s.len() - 1] == x);
                }
            }
            if s.contains(x) {
                let i = choose|i: int| 0 <= i < s.len() && s[i] == x;
                if i < t.len() {
                    assert(t[i] == x);
                    assert(t.contains(x));
                    assert(q.contains(x));
                    let k = choose|k: int| 0 <= k < q.len() && q[k] == x;
                    assert(r[k] == x);
                } else {
                    assert(r[q.len() as int] == x);
                }
            }
            if x == d {
                assert(q.contains(d));
                let k = choose|k: int| 0 <= k < q.len() && q[k] == d;
                assert(r[k] == d);
            }
        }
        if weekdays_increasing(s) && (forall|k: int|
            0 <= k < s.len() ==> s[k].weekday != d.weekday) {
            assert(weekdays_increasing(t));
            assert(forall|k: int| 0 <= k < t.len() ==> t[k].weekday != d.weekday);
            assert forall|i: int, j: int| 0 <= i < j < r.len() implies r[i].weekday
                < r[j].weekday by {
                if j == r.len() - 1 {
                    assert(q.contains(r[i]));
                    if t.contains(r[i]) {
                        let k = choose|k: int| 0 <= k < t.len() && t[k] == r[i];
                        assert(s[k] == r[i]);
                    }
                } else {
                    assert(r[i] == q[i] && r[j] == q[j]);
                }
            }
        }
    }
}

proof fn lemma_sort_days(s: Seq<DayMenuView>)
    ensures
        sort_days(s).len() == s.len(),
        forall|x: DayMenuView| #[trigger] sort_days(s).contains(x) <==> s.contains(x),
        weekdays_distinct(s) ==> weekdays_increasing(sort_days(s)),
    decreases s.len(),
{
    if s.len() > 0 {
        let t = s.drop_last();
        lemma_sort_days(t);
        let q = sort_days(t);
        lemma_insert_day(q, s.last());
        assert forall|x: DayMenuView| #[trigger] sort_days(s).contains(x) <==> s.contains(x) by {
            if s.contains(x) {
                let i = choose|i: int| 0 <= i < s.len() && s[i] == x;
                if i < t.len() {
                    assert(t[i] == x);
                    assert(t.contains(x));
                }
            }
            if t.contains(x) {
                let i = choose|i: int| 0 <= i < t.len() && t[i] == x;
                assert(s[i] == x);
            }
            if x == s.last() {
                assert(s[s.len() - 1] == x);
            }
        }
        if weekdays_distinct(s) {
            assert(weekdays_distinct(t));
            assert forall|k: int| 0 <= k < q.len() implies q[k].weekday != s.last().weekday by {
                assert(q.contains(q[k]));
                let i = choose|i: int| 0 <= i < t.len() && t[i] == q[k];
                assert(s[i] == q[k]);
            }
        }
    }
}

/// The week read from a reply lists each weekday at most once, in
/// increasing order, and every listed day has its lunch or its dinner.
pub proof fn lemma_parsed_week(resp: Seq<char>)
    ensures
        weekdays_increasing(dwr_menu(resp).days),
        every_day_has_meal(dwr_menu(resp).days),
{
    let c = collect_days(dwr_objects(resp));
    lemma_collect_days(dwr_objects(resp));
    lemma_sort_days(c);
    let r = sort_days(c);
    assert forall|i: int| 0 <= i < r.len() implies (#[trigger] r[i]).almoco is Some
        || r[i].jantar is Some by {
        assert(r.contains(r[i]));
        let k = choose|k: int| 0 <= k < c.len() && c[k] == r[i];
    }
}

/// A skipped object adds nothing, wherever it stands among the objects.
proof fn lemma_collect_days_skip(objs: Seq<Seq<char>>, k: int, o: Seq<char>)
    requires
        0 <= k <= objs.len(),
        object_skipped(o),
    ensures
        collect_days(objs.insert(k, o)) == collect_days(objs),
    decreases objs.len(),
{
    let t = objs.insert(k, o);
    if k == objs.len() {
        assert(t.drop_last() =~= objs);
        assert(t.last() == o);
    } else {
        assert(t.drop_last() =~= objs.drop_last().insert(k, o));
        assert(t.last() == objs.last());
        lemma_collect_days_skip(objs.drop_last(), k, o);
    }
}

/// An object whose day text is empty, `null` or says the restaurant is
/// closed (`fechado`, in any case) changes nothing: a reply whose objects
/// are those of another with such an object put in at any place gives the
/// same week, and can be read whenever the other can and its markers are
/// in order.
pub proof fn lemma_skipped_object_changes_nothing(
    resp: Seq<char>,
    longer: Seq<char>,
    k: int,
    o: Seq<char>,
)
    requires
        0 <= k <= dwr_objects(resp).len(),
        dwr_objects(longer) == dwr_objects(resp).insert(k, o),
        object_skipped(o),
    ensures
        dwr_menu(longer) == dwr_menu(resp),
        markers_in_order(longer) == markers_in_order(resp) ==> (dwr_defined(longer) <==> dwr_defined(
            resp,
        )),
{
    let objs = dwr_objects(resp);
    lemma_collect_days_skip(objs, k, o);
    let t = dwr_objects(longer);
    if markers_in_order(longer) == markers_in_order(resp) {
        if dwr_defined(resp) {
            assert forall|i: int| 0 <= i < t.len() implies object_defined(#[trigger] t[i]) by {
                if i < k {
                    assert(t[i] == objs[i]);
                } else if i > k {
                    assert(t[i] == objs[i - 1]);
                }
            }
        }
        if dwr_defined(longer) {
            assert forall|i: int| 0 <= i < objs.len() implies object_defined(
                #[trigger] objs[i],
            ) by {
                if i < k {
                    assert(t[i] == objs[i]);
                    assert(object_defined(t[i]));
                } else {
                    assert(t[i + 1] == objs[i]);
                    assert(object_defined(t[i + 1]));
                }
            }
        }
    }
}

proof fn lemma_quote_or_break_brace(s: Seq<char>, k: nat)
    requires
        k <= s.len(),
    ensures
        quote_or_break_from(s.push('}'), k) == quote_or_break_from(s, k),
        quote_or_break_from(s, k) matches Some(q) ==> k <= q < s.len(),
    decreases s.len() - k,
{
    if k < s.len() {
        assert(s.push('}')[k as int] == s[k as int]);
        lemma_quote_or_break_brace(s, k + 1);
    } else {
        assert(s.push('}')[k as int] == '}');
        assert(quote_or_break_from(s.push('}'), k + 1) is None);
    }
}

proof fn lemma_bare_end_brace(s: Seq<char>, k: nat)
    requires
        k <= s.len(),
    ensures
        bare_end_from(s.push('}'), k) == bare_end_from(s, k),
        k <= bare_end_from(s, k) <= s.len(),
    decreases s.len() - k,
{
    if k < s.len() {
        assert(s.push('}')[k as int] == s[k as int]);
        lemma_bare_end_brace(s, k + 1);
    }
}

proof fn lemma_find_from_brace(s: Seq<char>, p: Seq<char>, i: nat)
    requires
        p.len() > 0,
        p.last() != '}',
    ensures
        find_from(s.push('}'), p, i) == find_from(s, p, i),
    decreases s.len() + 1 - i,
{
    let t = s.push('}');
    if i + p.len() > t.len() || i >= t.len() {
    } else if i + p.len() <= s.len() {
        assert(t.subrange(i as int, (i + p.len()) as int) =~= s.subrange(
            i as int,
            (i + p.len()) as int,
        ));
        lemma_find_from_brace(s, p, i + 1);
    } else {
        assert(t.subrange(i as int, (i + p.len()) as int).last() == '}');
        assert(t.subrange(i as int, (i + p.len()) as int) != p);
    }
}

proof fn lemma_quoted_capture_brace(s: Seq<char>, f: Seq<char>, i: nat)
    requires
        i <= s.len(),
    ensures
        quoted_capture_from(s.push('}'), f, i) == quoted_capture_from(s, f, i),
    decreases s.len() - i,
{
    reveal_strlit(":\"");
    let t = s.push('}');
    let p = f + ":\""@;
    if i < s.len() {
        if i + p.len() <= s.len() {
            assert(t.subrange(i as int, (i + p.len()) as int) =~= s.subrange(
                i as int,
                (i + p.len()) as int,
            ));
            lemma_quote_or_break_brace(s, i + p.len());
            match quote_or_break_from(s, i + p.len()) {
                Some(q) => {
                    assert(t[q as int] == s[q as int]);
                    assert(t.subrange((i + p.len()) as int, q as int) =~= s.subrange(
                        (i + p.len()) as int,
                        q as int,
                    ));
                },
                None => {},
            }
        } else if i + p.len() == t.len() {
            assert(t.subrange(i as int, (i + p.len()) as int).last() == '}');
            assert(p.last() == '"');
        }
        assert(quoted_value_at(t, f, i) == quoted_value_at(s, f, i));
        lemma_quoted_capture_brace(s, f, i + 1);
    } else {
        assert(!occurs_at(t, p, i as int));
        assert(quoted_capture_from(t, f, i + 1) is None);
    }
}

/// A closing brace at the end of an object changes none of its field
/// values whose names are plain.
proof fn lemma_field_brace(s: Seq<char>, f: Seq<char>)
    requires
        plain_name(f),
    ensures
        extract_field_spec(s.push('}'), f) == extract_field_spec(s, f),
{
    reveal_strlit(":");
    let t = s.push('}');
    lemma_quoted_capture_brace(s, f, 0);
    let p = f + ":"@;
    lemma_find_from_brace(s, p, 0);
    lemma_find_from(s, p, 0);
    match first_occurrence(s, p) {
        Some(i) => {
            lemma_bare_end_brace(s, i + p.len());
            assert(t.subrange(
                (i + p.len()) as int,
                bare_end_from(s, i + p.len()) as int,
            ) =~= s.subrange((i + p.len()) as int, bare_end_from(s, i + p.len()) as int));
        },
        None => {},
    }
    assert(bare_capture(t, f) == bare_capture(s, f));
}

/// The field names the week is read from can be used in the field
/// patterns.
proof fn lemma_object_fields_plain()
    ensures
        usable_field_name("cdpdia"@),
        usable_field_name("diasemana"@),
        usable_field_name("dtainismncdp"@),
        usable_field_name("tiprfi"@),
        usable_field_name("vlrclorfi"@),
{
    reveal_strlit("cdpdia");
    reveal_strlit("diasemana");
    reveal_strlit("dtainismncdp");
    reveal_strlit("tiprfi");
    reveal_strlit("vlrclorfi");
}

/// A closing brace at the end of an object changes nothing it adds.
proof fn lemma_object_brace(days: Seq<DayMenuView>, o: Seq<char>)
    ensures
        add_object(days, o.push('}')) == add_object(days, o),
        object_defined(o.push('}')) == object_defined(o),
{
    lemma_object_fields_plain();
    lemma_field_brace(o, "cdpdia"@);
    lemma_field_brace(o, "diasemana"@);
    lemma_field_brace(o, "dtainismncdp"@);
    lemma_field_brace(o, "tiprfi"@);
    lemma_field_brace(o, "vlrclorfi"@);
}

/// The objects of a reply `p + "[" + y + "]" + q` whose list `y` starts
/// with `{` and ends with `}`, where `p` holds no `[{` and `q` no `}]`: the
/// pieces of `y` split at `},{`.
proof fn lemma_objects_of_list(p: Seq<char>, y: Seq<char>, q: Seq<char>)
    requires
        !contains_seq(p, "[{"@),
        !contains_seq(q, "}]"@),
        y.len() > 0,
        y[0] == '{',
        y.last() == '}',
    ensures
        dwr_objects(p + "["@ + y + "]"@ + q) == split_seq(y, "},{"@),
        markers_in_order(p + "["@ + y + "]"@ + q),
{
    reveal_strlit("[");
    reveal_strlit("]");
    reveal_strlit("[{");
    reveal_strlit("}]");
    let s = p + "["@ + y + "]"@ + q;
    let open = "[{"@;
    let close = "}]"@;
    let a = p.len() as int;
    let b = (p.len() + y.len()) as int;
    lemma_find_from(p, open, 0);
    lemma_find_from(q, close, 0);
    assert(s.subrange(a, a + 2) =~= open);
    assert forall|j: int| 0 <= j < a implies !occurs_at(s, open, j) by {
        if occurs_at(s, open, j) {
            if j + 2 <= a {
                assert(s.subrange(j, j + 2) =~= p.subrange(j, j + 2));
                assert(occurs_at(p, open, j));
            } else {
                assert(s.subrange(j, j + 2)[1] == s[a]);
            }
        }
    }
    lemma_first_occurrence_is(s, open, a);
    assert(s[b] == y.last());
    assert(s.subrange(b, b + 2) =~= close);
    assert forall|j: int| j > b implies !occurs_at(s, close, j) by {
        if occurs_at(s, close, j) && j == b + 1 {
            assert(s.subrange(j, j + 2)[0] == s[b + 1]);
        } else if occurs_at(s, close, j) {
            let k = j - (b + 2);
            assert(s.subrange(j, j + 2) =~= q.subrange(k, k + 2));
            assert(occurs_at(q, close, k));
        }
    }
    lemma_last_occurrence_is(s, close, b);
    assert(s.subrange(a + 1, b + 1) =~= y);
}

/// An entry whose day text is empty, `null` or says the restaurant is
/// closed (`fechado`, in any case) changes nothing: put at the end of the
/// reply's list of objects, after a `,`, it leaves the week read from the
/// reply as it was, and the reply can be read exactly when it could
/// before. Here `p` holds no `[{`, `q` no `}]`, the list `x` starts with
/// `{` and ends with `}`, and `c` (the entry between its braces) holds no
/// `},{`.
pub proof fn lemma_closed_entry_changes_nothing(
    p: Seq<char>,
    x: Seq<char>,
    c: Seq<char>,
    q: Seq<char>,
)
    requires
        !contains_seq(p, "[{"@),
        !contains_seq(q, "}]"@),
        x.len() > 0,
        x[0] == '{',
        x.last() == '}',
        !contains_seq(c, "},{"@),
        object_skipped(c),
    ensures
        dwr_menu(p + "["@ + x + ",{"@ + c + "}"@ + "]"@ + q) == dwr_menu(p + "["@ + x + "]"@ + q),
        dwr_defined(p + "["@ + x + ",{"@ + c + "}"@ + "]"@ + q) == dwr_defined(
            p + "["@ + x + "]"@ + q,
        ),
{
    reveal_strlit(",{");
    reveal_strlit("}");
    reveal_strlit("},{");
    reveal_strlit("[");
    reveal_strlit("]");
    let sep = "},{"@;
    let x2 = x + ",{"@ + c + "}"@;
    let z = x.drop_last();
    let r1 = p + "["@ + x + "]"@ + q;
    let r2 = p + "["@ + x + ",{"@ + c + "}"@ + "]"@ + q;
    assert(r2 =~= p + "["@ + x2 + "]"@ + q);
    assert(x2[0] == '{');
    lemma_objects_of_list(p, x, q);
    lemma_objects_of_list(p, x2, q);
    // The old list: the pieces of `z`, a brace added to the last.
    assert(x =~= z + "}"@);
    assert forall|j: int| 0 <= j && j + sep.len() > z.len() implies !occurs_at(
        #[trigger] (z + "}"@),
        sep,
        j,
    ) by {
        if occurs_at(z + "}"@, sep, j) {
            assert((z + "}"@).subrange(j, j + 3)[2] == (z + "}"@)[j + 2]);
        }
    }
    lemma_split_extend(z, sep, "}"@);
    // The new list: the pieces of `z`, then the entry with its brace.
    assert(x2 =~= z + sep + (c + "}"@));
    assert forall|j: int| 0 <= j < z.len() && j + sep.len() > z.len() implies !occurs_at(
        #[trigger] (z + sep + (c + "}"@)),
        sep,
        j,
    ) by {
        let t = z + sep + (c + "}"@);
        if occurs_at(t, sep, j) {
            if j == z.len() - 1 {
                assert(t.subrange(j, j + 3)[1] == t[j + 1]);
            } else {
                assert(t.subrange(j, j + 3)[2] == t[j + 2]);
            }
        }
    }
    lemma_split_concat(z, sep, c + "}"@);
    lemma_find_from(c, sep, 0);
    assert forall|j: int| 0 <= j && j + sep.len() > c.len() implies !occurs_at(
        #[trigger] (c + "}"@),
        sep,
        j,
    ) by {
        if occurs_at(c + "}"@, sep, j) {
            assert((c + "}"@).subrange(j, j + 3)[2] == (c + "}"@)[j + 2]);
        }
    }
    lemma_split_extend(c, sep, "}"@);
    assert(split_seq(c, sep) == seq![c]);
    let zs = split_seq(z, sep);
    lemma_split_nonempty(z, sep);
    let l = zs.last();
    assert(l + "}"@ =~= l.push('}'));
    assert(c + "}"@ =~= c.push('}'));
    let objs1 = zs.drop_last().push(l.push('}'));
    let objs2 = zs.push(c.push('}'));
    assert(dwr_objects(r1) == objs1);
    assert(dwr_objects(r2) =~= objs2);
    // The same days.
    lemma_object_brace(collect_days(zs.drop_last()), l);
    lemma_object_brace(collect_days(zs), c);
    assert(objs1.drop_last() =~= zs.drop_last());
    assert(objs2.drop_last() =~= zs);
    assert(zs.drop_last().push(l) =~= zs);
    assert(collect_days(objs1) == collect_days(zs));
    assert(collect_days(objs2) == collect_days(zs));
    // Read exactly when before.
    assert forall|i: int| 0 <= i < objs1.len() implies object_defined(#[trigger] objs1[i])
        == (if i < zs.len() - 1 {
        object_defined(zs[i])
    } else {
        object_defined(l)
    }) by {}
    assert forall|i: int| 0 <= i < objs2.len() implies object_defined(#[trigger] objs2[i])
        == (if i < zs.len() {
        object_defined(zs[i])
    } else {
        true
    }) by {}
    if dwr_defined(r1) {
        assert forall|i: int| 0 <= i < objs2.len() implies object_defined(
            #[trigger] objs2[i],
        ) by {
            if i < zs.len() - 1 {
                assert(object_defined(objs1[i]));
            } else if i == zs.len() - 1 {
                assert(object_defined(objs1[i]));
            }
        }
    }
    if dwr_defined(r2) {
        assert forall|i: int| 0 <= i < objs1.len() implies object_defined(
            #[trigger] objs1[i],
        ) by {
            assert(object_defined(objs2[i]));
        }
    }
}

/// Some day has weekday `w`.
pub open spec fn has_weekday(days: Seq<DayMenuView>, w: u32) -> bool {
    exists|k: int| 0 <= k < days.len() && #[trigger] days[k].weekday == w
}

/// Some object that is read (not skipped) has weekday `w`.
pub open spec fn object_with_weekday(objs: Seq<Seq<char>>, w: u32) -> bool {
    exists|i: int|
        0 <= i < objs.len() && !object_skipped(#[trigger] objs[i]) && object_weekday(objs[i]) == w
}

/// Some day holds the object's meal in the object's slot under the
/// object's weekday.
pub open spec fn holds_object_meal(days: Seq<DayMenuView>, o: Seq<char>) -> bool {
    exists|k: int|
        0 <= k < days.len() && #[trigger] days[k].weekday == object_weekday(o) && (if object_is_lunch(
            o,
        ) {
            days[k].almoco == Some(object_meal(o))
        } else {
            days[k].jantar == Some(object_meal(o))
        })
}

/// Object `i` is read and no later read object has its weekday and meal
/// type.
pub open spec fn is_latest_of_its_slot(objs: Seq<Seq<char>>, i: int) -> bool {
    &&& !object_skipped(objs[i])
    &&& forall|j: int|
        i < j < objs.len() && !object_skipped(#[trigger] objs[j]) && object_weekday(objs[j])
            == object_weekday(objs[i]) ==> object_is_lunch(objs[j]) != object_is_lunch(objs[i])
}

#[verifier::spinoff_prover]
#[verifier::rlimit(40)]
proof fn lemma_collect_days_contents(objs: Seq<Seq<char>>)
    ensures
        forall|w: u32| #[trigger] has_weekday(collect_days(objs), w) <==> object_with_weekday(objs, w),
        forall|i: int|
            0 <= i < objs.len() && is_latest_of_its_slot(objs, i) ==> holds_object_meal(
                collect_days(objs),
                #[trigger] objs[i],
            ),
    decreases objs.len(),
{
    if objs.len() > 0 {
        let pre = objs.drop_last();
        lemma_collect_days_contents(pre);
        let days = collect_days(pre);
        let o = objs.last();
        let n = objs.len() - 1;
        let r = collect_days(objs);
        let w = object_weekday(o);
        lemma_day_position(days, w as int);
        assert forall|v: u32| #[trigger] has_weekday(r, v) <==> object_with_weekday(objs, v) by {
            if object_with_weekday(pre, v) {
                let i = choose|i: int|
                    0 <= i < pre.len() && !object_skipped(#[trigger] pre[i]) && object_weekday(pre[i])
                        == v;
                assert(objs[i] == pre[i]);
            }
            if object_with_weekday(objs, v) {
                let i = choose|i: int|
                    0 <= i < objs.len() && !object_skipped(#[trigger] objs[i]) && object_weekday(
                        objs[i],
                    ) == v;
                if i < n {
                    assert(pre[i] == objs[i]);
                }
            }
            if has_weekday(days, v) {
                let k = choose|k: int| 0 <= k < days.len() && #[trigger] days[k].weekday == v;
                if !object_skipped(o) {
                    assert(r[k].weekday == v);
                }
            }
            if has_weekday(r, v) {
                let k = choose|k: int| 0 <= k < r.len() && #[trigger] r[k].weekday == v;
                if !object_skipped(o) && k < days.len() {
                    assert(days[k].weekday == v);
                }
            }
            if !object_skipped(o) && v == w {
                match day_position(days, w as int) {
                    Some(j) => {
                        assert(r[j as int].weekday == w);
                    },
                    None => {
                        assert(r[days.len() as int].weekday == w);
                    },
                }
            }
        }
        assert forall|i: int|
            0 <= i < objs.len() && is_latest_of_its_slot(objs, i) implies holds_object_meal(
            r,
            #[trigger] objs[i],
        ) by {
            let oi = objs[i];
            if i < n {
                assert(pre[i] == oi);
                assert forall|j: int|
                    i < j < pre.len() && !object_skipped(#[trigger] pre[j]) && object_weekday(pre[j])
                        == object_weekday(pre[i]) implies object_is_lunch(pre[j]) != object_is_lunch(
                    pre[i],
                ) by {
                    assert(objs[j] == pre[j]);
                }
                assert(is_latest_of_its_slot(pre, i));
                let k = choose|k: int|
                    0 <= k < days.len() && #[trigger] days[k].weekday == object_weekday(oi) && (
                    if object_is_lunch(oi) {
                        days[k].almoco == Some(object_meal(oi))
                    } else {
                        days[k].jantar == Some(object_meal(oi))
                    });
                if !object_skipped(o) {
                    match day_position(days, w as int) {
                        Some(j) => {
                            if j as int == k {
                                assert(objs[n] == o);
                            }
                            assert(r[k].weekday == days[k].weekday);
                        },
                        None => {
                            assert(r[k] == days[k]);
                        },
                    }
                }
            } else {
                assert(oi == o);
                match day_position(days, w as int) {
                    Some(j) => {
                        assert(r[j as int].weekday == w);
                    },
                    None => {
                        assert(r[days.len() as int].weekday == w);
                    },
                }
            }
        }
    }
}

/// The week read from a reply has a day for exactly the weekdays of the
/// objects read (those not skipped), and every object read that no later
/// object of the same weekday and meal type replaces has its meal in its
/// day.
pub proof fn lemma_parsed_week_contents(resp: Seq<char>)
    ensures
        forall|w: u32| #[trigger] has_weekday(dwr_menu(resp).days, w) <==> object_with_weekday(
            dwr_objects(resp),
            w,
        ),
        forall|i: int|
            0 <= i < dwr_objects(resp).len() && is_latest_of_its_slot(dwr_objects(resp), i)
                ==> holds_object_meal(dwr_menu(resp).days, #[trigger] dwr_objects(resp)[i]),
{
    let objs = dwr_objects(resp);
    let c = collect_days(objs);
    lemma_collect_days_contents(objs);
    lemma_sort_days(c);
    let r = sort_days(c);
    assert forall|w: u32| #[trigger] has_weekday(r, w) <==> has_weekday(c, w) by {
        if has_weekday(c, w) {
            let k = choose|k: int| 0 <= k < c.len() && #[trigger] c[k].weekday == w;
            assert(c.contains(c[k]));
            assert(r.contains(c[k]));
            let j = choose|j: int| 0 <= j < r.len() && r[j] == c[k];
            assert(r[j].weekday == w);
        }
        if has_weekday(r, w) {
            let k = choose|k: int| 0 <= k < r.len() && #[trigger] r[k].weekday == w;
            assert(r.contains(r[k]));
            let j = choose|j: int| 0 <= j < c.len() && c[j] == r[k];
            assert(c[j].weekday == w);
        }
    }
    assert forall|i: int|
        0 <= i < objs.len() && is_latest_of_its_slot(objs, i) implies holds_object_meal(
        r,
        #[trigger] objs[i],
    ) by {
        let oi = objs[i];
        let k = choose|k: int|
            0 <= k < c.len() && #[trigger] c[k].weekday == object_weekday(oi) && (if object_is_lunch(
                oi,
            ) {
                c[k].almoco == Some(object_meal(oi))
            } else {
                c[k].jantar == Some(object_meal(oi))
            });
        assert(c.contains(c[k]));
        assert(r.contains(c[k]));
        let j = choose|j: int| 0 <= j < r.len() && r[j] == c[k];
        assert(r[j].weekday == object_weekday(oi));
    }
}

/// The codes with a name of their own.
pub open spec fn has_listed_name(id: u32) -> bool {
    id == 1 || id == 2 || id == 3 || id == 4 || id == 5 || id == 6 || id == 7 || id == 8 || id == 9 || id == 11 || id == 12 || id == 13 || id == 14 || id == 15 || id == 16 || id == 17 || id == 18 || id == 19 || id == 20 || id == 21 || id == 22 || id == 23
}

/// A few features of a name that tell the names of the listed codes
/// apart: its length, its first character and its character at 32.
pub open spec fn name_signature(n: Seq<char>) -> (nat, char, char) {
    (n.len(), n[0], if n.len() > 32 {
        n[32]
    } else {
        ' '
    })
}

/// The signature of the name of a listed code.
pub open spec fn listed_signature(id: u32) -> (nat, char, char) {
    if id == 1 {
        (19, 'C', ' ')
    } else if id == 2 {
        (22, 'P', ' ')
    } else if id == 3 {
        (18, 'F', ' ')
    } else if id == 4 {
        (19, 'Q', ' ')
    } else if id == 5 {
        (34, 'R', 't')
    } else if id == 6 {
        (29, 'R', ' ')
    } else if id == 7 {
        (28, 'R', ' ')
    } else if id == 8 {
        (31, 'R', ' ')
    } else if id == 9 {
        (41, 'E', 'e')
    } else if id == 11 {
        (42, 'F', ' ')
    } else if id == 12 {
        (22, 'E', ' ')
    } else if id == 13 {
        (16, 'E', ' ')
    } else if id == 14 {
        (47, 'F', 'd')
    } else if id == 15 {
        (46, 'R', ')')
    } else if id == 16 {
        (42, 'R', 'r')
    } else if id == 17 {
        (36, 'R', 'r')
    } else if id == 18 {
        (33, 'F', 's')
    } else if id == 19 {
        (37, 'R', 'P')
    } else if id == 20 {
        (19, 'R', ' ')
    } else if id == 21 {
        (47, 'R', '1')
    } else if id == 22 {
        (47, 'R', '2')
    } else if id == 23 {
        (25, 'O', ' ')
    } else {
        (0, ' ', ' ')
    }
}

proof fn lemma_listed_name(id: u32)
    requires
        has_listed_name(id),
    ensures
        fallback_name_spec(id).len() > 12,
        fallback_name_spec(id)[12] != '(',
        name_signature(fallback_name_spec(id)) == listed_signature(id),
{
    reveal_strlit("Central - São Paulo");
    reveal_strlit("Prefeitura - São Paulo");
    reveal_strlit("Física - São Paulo");
    reveal_strlit("Química - São Paulo");
    reveal_strlit("Restaurante das Químicas - Butantã");
    reveal_strlit("Restaurante Central - Butantã");
    reveal_strlit("Restaurante PUSP-C - Butantã");
    reveal_strlit("Restaurante da Física - Butantã");
    reveal_strlit("Escola de Enfermagem - Quadrilátero Saúde");
    reveal_strlit("Faculdade de Direito - Largo São Francisco");
    reveal_strlit("Enfermagem - São Paulo");
    reveal_strlit("EACH - USP Leste");
    reveal_strlit("Faculdade de Saúde Pública - Quadrilátero Saúde");
    reveal_strlit("Restaurante de Piracicaba (ESALQ) - Piracicaba");
    reveal_strlit("Restaurante de Pirassununga - Pirassununga");
    reveal_strlit("Restaurante de Lorena (EEL) - Lorena");
    reveal_strlit("Faculdade de Medicina - Pinheiros");
    reveal_strlit("RU de Ribeirão Preto - Ribeirão Preto");
    reveal_strlit("RU de Bauru - Bauru");
    reveal_strlit("Restaurante de São Carlos (Área 1) - São Carlos");
    reveal_strlit("Restaurante de São Carlos (Área 2) - São Carlos");
    reveal_strlit("Oceanográfico - São Paulo");
}

proof fn lemma_generic_name(id: u32)
    requires
        !has_listed_name(id),
    ensures
        fallback_name_spec(id).len() > 12,
        fallback_name_spec(id)[12] == '(',
        fallback_name_spec(id).subrange(16, fallback_name_spec(id).len() - 1) == decimal(
            id as nat,
        ),
{
    reveal_strlit("Restaurante (ID ");
    reveal_strlit(")");
    let n = fallback_name_spec(id);
    assert(n == "Restaurante (ID "@ + decimal(id as nat) + ")"@);
    assert(n.subrange(16, n.len() - 1) =~= decimal(id as nat));
}

/// Different restaurant codes get different names.
pub proof fn lemma_fallback_names_distinct(a: u32, b: u32)
    requires
        a != b,
    ensures
        fallback_name_spec(a) != fallback_name_spec(b),
{
    if has_listed_name(a) && has_listed_name(b) {
        lemma_listed_name(a);
        lemma_listed_name(b);
    } else if has_listed_name(a) {
        lemma_listed_name(a);
        lemma_generic_name(b);
    } else if has_listed_name(b) {
        lemma_listed_name(b);
        lemma_generic_name(a);
    } else {
        lemma_generic_name(a);
        lemma_generic_name(b);
        crate::text::lemma_decimal_injective(a as nat, b as nat);
    }
}

/// The days of the week read from a readable reply are numbered from
/// Monday = 1 to Sunday = 7 when no object read carries a service day
/// number above 8 (numbers from 9 on give days from 8 on).
pub proof fn lemma_week_days_numbered(resp: Seq<char>)
    requires
        dwr_defined(resp),
        forall|i: int|
            0 <= i < dwr_objects(resp).len() && !object_skipped(#[trigger] dwr_objects(resp)[i])
                ==> number_or_zero(extract_field_spec(dwr_objects(resp)[i], "diasemana"@)) <= 8,
    ensures
        forall|k: int|
            0 <= k < dwr_menu(resp).days.len() ==> 1 <= #[trigger] dwr_menu(resp).days[k].weekday
                <= 7,
{
    let days = dwr_menu(resp).days;
    let objs = dwr_objects(resp);
    lemma_parsed_week_contents(resp);
    assert forall|k: int| 0 <= k < days.len() implies 1 <= #[trigger] days[k].weekday <= 7 by {
        let w = days[k].weekday;
        assert(has_weekday(days, w));
        assert(object_with_weekday(objs, w));
        let i = choose|i: int|
            0 <= i < objs.len() && !object_skipped(#[trigger] objs[i]) && object_weekday(objs[i])
                == w;
        assert(!object_skipped(objs[i]));
        assert(object_defined(objs[i]));
    }
}

// ---------------------------------------------------------------------
// Laws of meals
// ---------------------------------------------------------------------

/// A text without surrounding white space.
pub open spec fn is_trimmed(t: Seq<char>) -> bool {
    trim_seq(t) == t
}

/// Every item is non-empty and trimmed.
pub open spec fn clean_items(items: Seq<Seq<char>>) -> bool {
    forall|i: int| 0 <= i < items.len() ==> (#[trigger] items[i]).len() > 0 && is_trimmed(items[i])
}

/// Every text of a meal is trimmed and every item of its lists is
/// non-empty and trimmed.
pub open spec fn clean_meal(m: MealView) -> bool {
    &&& clean_items(m.opcoes)
    &&& clean_items(m.outros)
    &&& is_trimmed(m.guarnicao)
    &&& is_trimmed(m.guarnicao_pvt)
    &&& is_trimmed(m.acompanhamento)
    &&& is_trimmed(m.salada)
    &&& is_trimmed(m.sobremesa)
}

proof fn lemma_nonempty_trimmed_clean(parts: Seq<Seq<char>>)
    ensures
        clean_items(nonempty_trimmed(parts)),
    decreases parts.len(),
{
    if parts.len() > 0 {
        lemma_nonempty_trimmed_clean(parts.drop_last());
        lemma_trim_idempotent(parts.last());
    }
}

proof fn lemma_empty_trimmed()
    ensures
        is_trimmed(Seq::<char>::empty()),
{
    assert(crate::text::trim_start_seq(Seq::<char>::empty()) == Seq::<char>::empty());
    assert(crate::text::trim_end_seq(Seq::<char>::empty()) == Seq::<char>::empty());
}

proof fn lemma_apply_meal_lines_clean(m: MealView, lines: Seq<Seq<char>>, k: int)
    requires
        clean_meal(m),
        clean_items(lines),
        k <= lines.len(),
    ensures
        clean_meal(apply_meal_lines(m, lines, k)),
    decreases k,
{
    if k > 2 {
        lemma_apply_meal_lines_clean(m, lines, k - 1);
        let line = lines[k - 1];
        lemma_nonempty_trimmed_clean(split_seq(line, ","@));
        lemma_trim_idempotent(replace_seq(replace_seq(line, "Opção:"@, ""@), "Opcao:"@, ""@));
    }
}

/// The meal read from a text has every text trimmed and every option and
/// other item non-empty and trimmed.
pub proof fn lemma_meal_is_clean(decoded: Seq<char>, calories: u32, meal_type: Seq<char>)
    ensures
        clean_meal(meal_from_decoded_spec(decoded, calories, meal_type)),
{
    let lines = meal_lines(decoded);
    lemma_nonempty_trimmed_clean(split_seq(cleaned_meal_text(decoded), "<br>"@));
    lemma_empty_trimmed();
    if lines.len() > 0 {
        lemma_nonempty_trimmed_clean(split_seq(lines[0], ","@));
        let base = MealView {
            opcoes: comma_items(lines[0]),
            guarnicao: if lines.len() > 1 {
                lines[1]
            } else {
                Seq::empty()
            },
            ..blank_meal(calories, meal_type)
        };
        assert(clean_meal(base));
        lemma_apply_meal_lines_clean(base, lines, lines.len() as int);
    } else {
        assert(clean_items(Seq::<Seq<char>>::empty()));
    }
}

/// Everything from the first `**` on is ignored: a meal text without stars
/// followed by `**` and any text describes the same meal as the text
/// alone.
pub proof fn lemma_meal_ignores_text_after_stars(
    a: Seq<char>,
    b: Seq<char>,
    calories: u32,
    meal_type: Seq<char>,
)
    requires
        forall|i: int| 0 <= i < a.len() ==> a[i] != '*',
    ensures
        meal_from_decoded_spec(a + "**"@ + b, calories, meal_type) == meal_from_decoded_spec(
            a,
            calories,
            meal_type,
        ),
{
    reveal_strlit("**");
    lemma_split_head(a, "**"@, b);
    assert(cleaned_meal_text(a + "**"@ + b) == cleaned_meal_text(a));
}

/// Text without backslashes comes through the escape decoding unchanged.
proof fn lemma_decoded_plain_prefix(a: Seq<char>, t: Seq<char>)
    requires
        forall|i: int| 0 <= i < a.len() ==> a[i] != '\\',
    ensures
        decoded_escapes(a + t) == a + decoded_escapes(t),
    decreases a.len(),
{
    if a.len() == 0 {
        assert(a + t =~= t);
    } else {
        let s = a + t;
        assert(s[0] == a[0]);
        assert(s.skip(1) =~= a.skip(1) + t);
        lemma_decoded_plain_prefix(a.skip(1), t);
        assert(a =~= seq![a[0]] + a.skip(1));
    }
}

/// Everything from the first `**` on is ignored, also before the escapes
/// are decoded: a raw meal text without stars or backslashes followed by
/// `**` and any text describes the same meal as the text alone.
pub proof fn lemma_smart_meal_ignores_text_after_stars(
    a: Seq<char>,
    b: Seq<char>,
    calories: u32,
    meal_type: Seq<char>,
)
    requires
        forall|i: int| 0 <= i < a.len() ==> a[i] != '*' && a[i] != '\\',
    ensures
        smart_meal_spec(a + "**"@ + b, calories, meal_type) == smart_meal_spec(
            a,
            calories,
            meal_type,
        ),
{
    reveal_strlit("**");
    let stars = "**"@;
    lemma_decoded_plain_prefix(stars, b);
    lemma_decoded_plain_prefix(a, stars + b);
    assert(a + stars + b =~= a + (stars + b));
    lemma_decoded_plain_prefix(a, Seq::empty());
    assert(a + Seq::<char>::empty() =~= a);
    assert(decoded_escapes(a + stars + b) =~= a + stars + decoded_escapes(b));
    assert(decoded_escapes(a) =~= a);
    lemma_meal_ignores_text_after_stars(a, decoded_escapes(b), calories, meal_type);
}

/// A meal line that gives the side-dish option: it starts with `opção:`
/// or `opcao:` in any case.
pub open spec fn is_option_line(line: Seq<char>) -> bool {
    starts_with_seq(lower_text(line), "opção:"@) || starts_with_seq(lower_text(line), "opcao:"@)
}

/// A meal line that gives the salad: it starts with `salada` in any case.
pub open spec fn is_salad_line(line: Seq<char>) -> bool {
    starts_with_seq(lower_text(line), "salada"@)
}

/// Line `i` of a meal can be its accompaniment: it comes from the third
/// line on, is neither the last but one (the dessert) nor the last (the
/// other items), and is not an option or salad line.
pub open spec fn accompaniment_line(lines: Seq<Seq<char>>, i: int) -> bool {
    &&& 2 <= i < lines.len() - 2
    &&& !is_option_line(lines[i])
    &&& !is_salad_line(lines[i])
}

/// The accompaniment found among lines `2..k`: the first that can be one.
spec fn accompaniment_upto(lines: Seq<Seq<char>>, k: int) -> Seq<char>
    decreases k,
{
    if k <= 2 {
        Seq::empty()
    } else {
        let p = accompaniment_upto(lines, k - 1);
        if p.len() == 0 && accompaniment_line(lines, k - 1) {
            lines[k - 1]
        } else {
            p
        }
    }
}

proof fn lemma_apply_lines_accompaniment(m: MealView, lines: Seq<Seq<char>>, k: int)
    requires
        m.acompanhamento.len() == 0,
        k <= lines.len(),
    ensures
        apply_meal_lines(m, lines, k).acompanhamento == accompaniment_upto(lines, k),
    decreases k,
{
    if k > 2 {
        lemma_apply_lines_accompaniment(m, lines, k - 1);
    }
}

proof fn lemma_accompaniment_upto(lines: Seq<Seq<char>>, k: int)
    requires
        clean_items(lines),
        k <= lines.len(),
    ensures
        forall|i: int|
            2 <= i < k && #[trigger] accompaniment_line(lines, i) && (forall|j: int|
                2 <= j < i ==> !accompaniment_line(lines, j)) ==> accompaniment_upto(lines, k)
                == lines[i],
        (forall|i: int| 2 <= i < k ==> !#[trigger] accompaniment_line(lines, i))
            ==> accompaniment_upto(lines, k).len() == 0,
    decreases k,
{
    if k > 2 {
        lemma_accompaniment_upto(lines, k - 1);
        assert(lines[k - 1].len() > 0);
        assert forall|i: int|
            2 <= i < k && #[trigger] accompaniment_line(lines, i) && (forall|j: int|
                2 <= j < i ==> !accompaniment_line(lines, j)) implies accompaniment_upto(lines, k)
            == lines[i] by {
            if i < k - 1 {
                assert(lines[i].len() > 0);
            } else {
                assert forall|j: int| 2 <= j < k - 1 implies !#[trigger] accompaniment_line(
                    lines,
                    j,
                ) by {}
            }
        }
    }
}

/// The accompaniment of a meal is the first of its lines, from the third
/// on, that is not an option line, a salad line, the last but one or the
/// last line; a later such line never replaces it. Without such a line
/// the meal has no accompaniment.
pub proof fn lemma_meal_accompaniment(raw: Seq<char>, calories: u32, meal_type: Seq<char>)
    ensures
        forall|i: int|
            #[trigger] accompaniment_line(meal_lines(decoded_escapes(raw)), i) && (forall|j: int|
                2 <= j < i ==> !accompaniment_line(meal_lines(decoded_escapes(raw)), j))
                ==> smart_meal_spec(raw, calories, meal_type).acompanhamento == meal_lines(
                decoded_escapes(raw),
            )[i],
        (forall|i: int| !#[trigger] accompaniment_line(meal_lines(decoded_escapes(raw)), i))
            ==> smart_meal_spec(raw, calories, meal_type).acompanhamento.len() == 0,
{
    let decoded = decoded_escapes(raw);
    let lines = meal_lines(decoded);
    let n = lines.len() as int;
    lemma_nonempty_trimmed_clean(split_seq(cleaned_meal_text(decoded), "<br>"@));
    lemma_accompaniment_upto(lines, n);
    if n > 0 {
        let base = MealView {
            opcoes: comma_items(lines[0]),
            guarnicao: if lines.len() > 1 {
                lines[1]
            } else {
                Seq::empty()
            },
            ..blank_meal(calories, meal_type)
        };
        lemma_apply_lines_accompaniment(base, lines, n);
    }
    assert forall|i: int|
        #[trigger] accompaniment_line(lines, i) && (forall|j: int|
            2 <= j < i ==> !accompaniment_line(lines, j)) implies smart_meal_spec(
        raw,
        calories,
        meal_type,
    ).acompanhamento == lines[i] by {
        assert(2 <= i < n);
    }
    if forall|i: int| !#[trigger] accompaniment_line(lines, i) {
        assert forall|i: int| 2 <= i < n implies !#[trigger] accompaniment_line(lines, i) by {}
    }
}

/// Line `i` of a meal gives its salad: from the third line on, a salad
/// line that is not an option line.
pub open spec fn salad_line(lines: Seq<Seq<char>>, i: int) -> bool {
    2 <= i < lines.len() && !is_option_line(lines[i]) && is_salad_line(lines[i])
}

/// Line `i` of a meal gives its side-dish option: from the third line on,
/// an option line.
pub open spec fn option_line(lines: Seq<Seq<char>>, i: int) -> bool {
    2 <= i < lines.len() && is_option_line(lines[i])
}

/// Line `i` of a meal is a plain line: neither an option nor a salad line.
pub open spec fn plain_line(lines: Seq<Seq<char>>, i: int) -> bool {
    !is_option_line(lines[i]) && !is_salad_line(lines[i])
}

/// The side-dish option given by the last option line among lines `2..k`.
spec fn option_upto(lines: Seq<Seq<char>>, k: int) -> Seq<char>
    decreases k,
{
    if k <= 2 {
        Seq::empty()
    } else if is_option_line(lines[k - 1]) {
        option_text(lines[k - 1])
    } else {
        option_upto(lines, k - 1)
    }
}

/// The salad given by the last salad line among lines `2..k`.
spec fn salad_upto(lines: Seq<Seq<char>>, k: int) -> Seq<char>
    decreases k,
{
    if k <= 2 {
        Seq::empty()
    } else if !is_option_line(lines[k - 1]) && is_salad_line(lines[k - 1]) {
        lines[k - 1]
    } else {
        salad_upto(lines, k - 1)
    }
}

proof fn lemma_apply_lines_parts(m: MealView, lines: Seq<Seq<char>>, k: int)
    requires
        m.guarnicao_pvt.len() == 0,
        m.salada.len() == 0,
        m.sobremesa.len() == 0,
        m.outros.len() == 0,
        k <= lines.len(),
    ensures
        apply_meal_lines(m, lines, k).guarnicao_pvt == option_upto(lines, k),
        apply_meal_lines(m, lines, k).salada == salad_upto(lines, k),
        apply_meal_lines(m, lines, k).sobremesa == (if 2 <= lines.len() - 2 < k && plain_line(
            lines,
            lines.len() - 2,
        ) {
            lines[lines.len() - 2]
        } else {
            Seq::empty()
        }),
        apply_meal_lines(m, lines, k).outros == (if 2 <= lines.len() - 1 < k && plain_line(
            lines,
            lines.len() - 1,
        ) {
            comma_items(lines[lines.len() - 1])
        } else {
            Seq::empty()
        }),
        apply_meal_lines(m, lines, k).opcoes == m.opcoes,
        apply_meal_lines(m, lines, k).guarnicao == m.guarnicao,
        apply_meal_lines(m, lines, k).calories == m.calories,
        apply_meal_lines(m, lines, k).meal_type == m.meal_type,
    decreases k,
{
    if k > 2 {
        lemma_apply_lines_parts(m, lines, k - 1);
    }
}

proof fn lemma_option_upto(lines: Seq<Seq<char>>, k: int)
    requires
        k <= lines.len(),
    ensures
        forall|i: int|
            #[trigger] option_line(lines, i) && i < k && (forall|j: int|
                i < j < k ==> !option_line(lines, j)) ==> option_upto(lines, k) == option_text(
                lines[i],
            ),
        (forall|i: int| i < k ==> !#[trigger] option_line(lines, i)) ==> option_upto(lines, k)
            == Seq::<char>::empty(),
    decreases k,
{
    if k > 2 {
        lemma_option_upto(lines, k - 1);
        if !is_option_line(lines[k - 1]) {
            assert(!option_line(lines, k - 1));
        } else {
            assert(option_line(lines, k - 1));
        }
    }
}

proof fn lemma_salad_upto(lines: Seq<Seq<char>>, k: int)
    requires
        k <= lines.len(),
    ensures
        forall|i: int|
            #[trigger] salad_line(lines, i) && i < k && (forall|j: int|
                i < j < k ==> !salad_line(lines, j)) ==> salad_upto(lines, k) == lines[i],
        (forall|i: int| i < k ==> !#[trigger] salad_line(lines, i)) ==> salad_upto(lines, k)
            == Seq::<char>::empty(),
    decreases k,
{
    if k > 2 {
        lemma_salad_upto(lines, k - 1);
        if !(!is_option_line(lines[k - 1]) && is_salad_line(lines[k - 1])) {
            assert(!salad_line(lines, k - 1));
        } else {
            assert(salad_line(lines, k - 1));
        }
    }
}

/// How the lines of a meal (its text decoded, cut at `**`, split at
/// `<br>`, trimmed, empty lines dropped) fill its parts: the first line's
/// comma-separated items are the options and the second line is the side
/// dish; from the third line on, the last option line gives the side-dish
/// option (without its label), the last salad line that is not an option
/// line gives the salad, the last but one line gives the dessert and the
/// last line's items the other items, each only when that line is neither
/// an option nor a salad line; parts no line gives stay empty.
pub proof fn lemma_meal_parts_from_lines(raw: Seq<char>, calories: u32, meal_type: Seq<char>)
    ensures
        ({
            let lines = meal_lines(decoded_escapes(raw));
            let m = smart_meal_spec(raw, calories, meal_type);
            let n = lines.len() as int;
            &&& m.opcoes == (if n > 0 {
                comma_items(lines[0])
            } else {
                Seq::empty()
            })
            &&& m.guarnicao == (if n > 1 {
                lines[1]
            } else {
                Seq::empty()
            })
            &&& forall|i: int|
                #[trigger] option_line(lines, i) && (forall|j: int|
                    i < j < n ==> !option_line(lines, j)) ==> m.guarnicao_pvt == option_text(
                    lines[i],
                )
            &&& (forall|i: int| !#[trigger] option_line(lines, i)) ==> m.guarnicao_pvt.len() == 0
            &&& forall|i: int|
                #[trigger] salad_line(lines, i) && (forall|j: int|
                    i < j < n ==> !salad_line(lines, j)) ==> m.salada == lines[i]
            &&& (forall|i: int| !#[trigger] salad_line(lines, i)) ==> m.salada.len() == 0
            &&& m.sobremesa == (if n >= 4 && plain_line(lines, n - 2) {
                lines[n - 2]
            } else {
                Seq::empty()
            })
            &&& m.outros == (if n >= 3 && plain_line(lines, n - 1) {
                comma_items(lines[n - 1])
            } else {
                Seq::empty()
            })
            &&& m.calories == calories
            &&& m.meal_type == meal_type
        }),
{
    let decoded = decoded_escapes(raw);
    let lines = meal_lines(decoded);
    let n = lines.len() as int;
    let m = smart_meal_spec(raw, calories, meal_type);
    lemma_option_upto(lines, n);
    lemma_salad_upto(lines, n);
    if n > 0 {
        let base = MealView {
            opcoes: comma_items(lines[0]),
            guarnicao: if lines.len() > 1 {
                lines[1]
            } else {
                Seq::empty()
            },
            ..blank_meal(calories, meal_type)
        };
        lemma_apply_lines_parts(base, lines, n);
    }
    assert forall|i: int|
        #[trigger] option_line(lines, i) && (forall|j: int|
            i < j < n ==> !option_line(lines, j)) implies m.guarnicao_pvt == option_text(
        lines[i],
    ) by {}
    if forall|i: int| !#[trigger] option_line(lines, i) {
        assert forall|i: int| i < n implies !#[trigger] option_line(lines, i) by {}
    }
    assert forall|i: int|
        #[trigger] salad_line(lines, i) && (forall|j: int| i < j < n ==> !salad_line(lines, j))
            implies m.salada == lines[i] by {}
    if forall|i: int| !#[trigger] salad_line(lines, i) {
        assert forall|i: int| i < n implies !#[trigger] salad_line(lines, i) by {}
    }
}

} // verus!
