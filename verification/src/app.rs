//! The terminal interface's state: the theme list, the selected day and
//! theme, the help screen, the animation tick, and what each key does.

use vstd::prelude::*;

use crate::menu::MenuData;
use crate::text::{chars_of, lower_text, string_of, to_lower, trim_seq, trim_str, slice_chars};
use crate::theme::{is_dark_theme, AppTheme, Config};

verus! {

// ---------------------------------------------------------------------
// Theme names and order
// ---------------------------------------------------------------------

/// A theme name as themes are compared: trimmed, then lowercased.
pub open spec fn name_key(name: Seq<char>) -> Seq<char> {
    lower_text(trim_seq(name))
}

/// The comparison key of a theme.
pub open spec fn theme_key(t: AppTheme) -> Seq<char> {
    name_key(t.name@)
}

/// `a` comes strictly before `b` in the order of `String` (character by
/// character; UTF-8 byte order agrees with code-point order).
pub open spec fn lex_lt(a: Seq<char>, b: Seq<char>) -> bool
    decreases a.len(),
{
    if b.len() == 0 {
        false
    } else if a.len() == 0 {
        true
    } else if a[0] != b[0] {
        a[0] < b[0]
    } else {
        lex_lt(a.drop_first(), b.drop_first())
    }
}

/// Whether `a` comes strictly before `b`.
pub fn key_less(a: &Vec<char>, b: &Vec<char>) -> (r: bool)
    ensures
        r == lex_lt(a@, b@),
{
    let mut i: usize = 0;
    assert(a@.skip(0) == a@ && b@.skip(0) == b@);
    while i < a.len() && i < b.len() && a[i] == b[i]
        invariant
            i <= a@.len(),
            i <= b@.len(),
            lex_lt(a@, b@) == lex_lt(a@.skip(i as int), b@.skip(i as int)),
        decreases a@.len() - i,
    {
        assert(a@.skip(i as int).drop_first() == a@.skip(i + 1));
        assert(b@.skip(i as int).drop_first() == b@.skip(i + 1));
        i += 1;
    }
    if i == b.len() {
        false
    } else if i == a.len() {
        true
    } else {
        a[i] < b[i]
    }
}

/// The comparison key of a theme.
pub fn key_of(t: &AppTheme) -> (k: Vec<char>)
    ensures
        k@ == theme_key(*t),
{
    let trimmed = trim_str(t.name.as_str());
    let lower = to_lower(trimmed.as_str());
    chars_of(lower.as_str())
}

/// The keys of a sequence of themes.
pub open spec fn theme_keys(s: Seq<AppTheme>) -> Seq<Seq<char>> {
    Seq::new(s.len(), |i: int| theme_key(s[i]))
}

/// The themes read from the theme files, in the order read, keeping the
/// first of those whose keys agree.
pub open spec fn first_of_each_name(s: Seq<AppTheme>) -> Seq<AppTheme>
    decreases s.len(),
{
    if s.len() == 0 {
        Seq::empty()
    } else {
        let p = first_of_each_name(s.drop_last());
        if theme_keys(p).contains(theme_key(s.last())) {
            p
        } else {
            p.push(s.last())
        }
    }
}

/// Inserts a theme after every theme whose key is not greater.
pub open spec fn insert_theme(sorted: Seq<AppTheme>, t: AppTheme) -> Seq<AppTheme>
    decreases sorted.len(),
{
    if sorted.len() == 0 {
        seq![t]
    } else if !lex_lt(theme_key(t), theme_key(sorted.last())) {
        sorted.push(t)
    } else {
        insert_theme(sorted.drop_last(), t).push(sorted.last())
    }
}

/// The themes in key order, equal keys kept in their order (a stable
/// sort).
pub open spec fn sort_themes(s: Seq<AppTheme>) -> Seq<AppTheme>
    decreases s.len(),
{
    if s.len() == 0 {
        Seq::empty()
    } else {
        insert_theme(sort_themes(s.drop_last()), s.last())
    }
}

/// The themes with each run of equal keys reduced to its first theme.
pub open spec fn dedup_keys(s: Seq<AppTheme>) -> Seq<AppTheme>
    decreases s.len(),
{
    if s.len() <= 1 {
        s
    } else {
        let p = dedup_keys(s.drop_last());
        if theme_key(p.last()) == theme_key(s.last()) {
            p
        } else {
            p.push(s.last())
        }
    }
}

/// `dedup_keys` keeps a non-empty sequence non-empty.
proof fn lemma_dedup_keys_nonempty(s: Seq<AppTheme>)
    ensures
        s.len() > 0 ==> dedup_keys(s).len() > 0,
    decreases s.len(),
{
    if s.len() > 1 {
        lemma_dedup_keys_nonempty(s.drop_last());
    }
}

/// Sorting keeps the number of themes.
proof fn lemma_sort_themes_len(s: Seq<AppTheme>)
    ensures
        sort_themes(s).len() == s.len(),
    decreases s.len(),
{
    if s.len() > 0 {
        lemma_sort_themes_len(s.drop_last());
        lemma_insert_theme_len(sort_themes(s.drop_last()), s.last());
    }
}

proof fn lemma_insert_theme_len(s: Seq<AppTheme>, t: AppTheme)
    ensures
        insert_theme(s, t).len() == s.len() + 1,
    decreases s.len(),
{
    if s.len() > 0 && lex_lt(theme_key(t), theme_key(s.last())) {
        lemma_insert_theme_len(s.drop_last(), t);
    }
}

/// Inserting at `p` is `insert_theme` when `p` follows every theme whose
/// key is not greater and precedes the greater ones.
proof fn lemma_insert_theme_at(s: Seq<AppTheme>, t: AppTheme, p: int)
    requires
        0 <= p <= s.len(),
        p == 0 || !lex_lt(theme_key(t), theme_key(s[p - 1])),
        forall|k: int| p <= k < s.len() ==> lex_lt(theme_key(t), #[trigger] theme_key(s[k])),
    ensures
        insert_theme(s, t) == s.take(p) + seq![t] + s.skip(p),
    decreases s.len(),
{
    if s.len() == 0 {
        assert(s.take(p) + seq![t] + s.skip(p) =~= seq![t]);
    } else if !lex_lt(theme_key(t), theme_key(s.last())) {
        assert(p == s.len());
        assert(s.take(p) + seq![t] + s.skip(p) =~= s.push(t));
    } else {
        let u = s.drop_last();
        assert(forall|k: int| p <= k < u.len() ==> u[k] == s[k]);
        lemma_insert_theme_at(u, t, p);
        assert(u.take(p) + seq![t] + u.skip(p) + seq![s.last()] =~= s.take(p) + seq![t] + s.skip(
            p,
        ));
    }
}

/// The list of themes offered: the themes read (first of each name), or
/// the built-in ones when none was read, in name order, one per name.
pub open spec fn collected_themes(found: Seq<AppTheme>) -> Seq<AppTheme> {
    dedup_keys(sort_themes(first_of_each_name(found)))
}

/// Theme `x` is read at some place and no theme of its name is read
/// before it.
pub open spec fn first_of_its_name(found: Seq<AppTheme>, x: AppTheme) -> bool {
    exists|i: int|
        #![trigger found[i]]
        0 <= i < found.len() && found[i] == x && forall|j: int|
            0 <= j < i ==> theme_key(#[trigger] found[j]) != theme_key(x)
}

/// What the list of themes offered is, for the themes read from the theme
/// files in the order read: not empty, in strictly increasing name order
/// (names compared trimmed and in lower case), the built-in dark theme
/// alone when none was read, else exactly the first theme read of each
/// name.
pub open spec fn offered_themes_ok(found: Seq<AppTheme>, r: Seq<AppTheme>) -> bool {
    &&& r.len() > 0
    &&& keys_increasing(r)
    &&& found.len() == 0 ==> r.len() == 1 && is_dark_theme(r[0])
    &&& found.len() > 0 ==> forall|x: AppTheme|
        #[trigger] r.contains(x) <==> first_of_its_name(found, x)
}

/// Two themes agree field by field.
pub open spec fn same_theme(a: AppTheme, b: AppTheme) -> bool {
    &&& a.name@ == b.name@
    &&& a.background@ == b.background@
    &&& a.foreground@ == b.foreground@
    &&& a.primary@ == b.primary@
    &&& a.secondary@ == b.secondary@
    &&& a.highlight@ == b.highlight@
    &&& a.error@ == b.error@
    &&& a.label_opcoes@ == b.label_opcoes@
    &&& a.label_guarnicao@ == b.label_guarnicao@
    &&& a.label_pvt@ == b.label_pvt@
    &&& a.label_acompanhamento@ == b.label_acompanhamento@
    &&& a.label_salada@ == b.label_salada@
    &&& a.label_sobremesa@ == b.label_sobremesa@
    &&& a.label_outros@ == b.label_outros@
}

/// Whether some kept key equals `k`.
fn key_seen(keys: &Vec<Vec<char>>, k: &Vec<char>) -> (r: bool)
    ensures
        r == crate::text::views(keys@).contains(k@),
{
    let mut i: usize = 0;
    while i < keys.len()
        invariant
            i <= keys@.len(),
            forall|j: int| 0 <= j < i ==> keys@[j]@ != k@,
        decreases keys@.len() - i,
    {
        if crate::text::same_chars(&keys[i], k) {
            assert(crate::text::views(keys@)[i as int] == k@);
            return true;
        }
        i += 1;
    }
    assert forall|j: int| 0 <= j < keys@.len() implies crate::text::views(keys@)[j] != k@ by {
        assert(crate::text::views(keys@)[j] == keys@[j]@);
    }
    false
}

/// The themes read, keeping the first of each name.
fn keep_first_of_each_name(found: Vec<AppTheme>) -> (r: Vec<AppTheme>)
    ensures
        r@ == first_of_each_name(found@),
{
    let ghost orig = found@;
    let mut rest = found;
    let mut kept: Vec<AppTheme> = Vec::new();
    let mut keys: Vec<Vec<char>> = Vec::new();
    let ghost mut k: int = 0;
    while rest.len() > 0
        invariant
            0 <= k <= orig.len(),
            rest@.len() + k == orig.len(),
            rest@ == orig.skip(k),
            kept@ == first_of_each_name(orig.take(k)),
            crate::text::views(keys@) == theme_keys(kept@),
        decreases rest@.len(),
    {
        let ghost before = rest@;
        let t = rest.remove(0);
        assert(t == orig[k]);
        assert(rest@ =~= orig.skip(k + 1));
        assert(orig.take(k + 1).drop_last() =~= orig.take(k));
        let key = key_of(&t);
        if !key_seen(&keys, &key) {
            let ghost old_keys = keys@;
            let ghost old_kept = kept@;
            kept.push(t);
            keys.push(key);
            assert(crate::text::views(keys@) =~= theme_keys(kept@)) by {
                assert(crate::text::views(keys@) =~= crate::text::views(old_keys).push(key@));
                assert(theme_keys(kept@) =~= theme_keys(old_kept).push(theme_key(t)));
            }
        }
        proof {
            k = k + 1;
        }
    }
    assert(orig.take(k) =~= orig);
    kept
}

/// Inserts a theme into key order, after the themes not greater.
fn insert_theme_sorted(sorted: &mut Vec<AppTheme>, t: AppTheme)
    ensures
        final(sorted)@ == insert_theme(old(sorted)@, t),
{
    let ghost s = sorted@;
    let key = key_of(&t);
    let mut p: usize = sorted.len();
    while p > 0 && key_less(&key, &key_of(&sorted[p - 1]))
        invariant
            p <= sorted@.len(),
            s == sorted@,
            key@ == theme_key(t),
            forall|k: int| p <= k < s.len() ==> lex_lt(theme_key(t), #[trigger] theme_key(s[k])),
        decreases p,
    {
        p -= 1;
    }
    proof {
        lemma_insert_theme_at(s, t, p as int);
    }
    sorted.insert(p, t);
    assert(sorted@ =~= s.take(p as int) + seq![t] + s.skip(p as int));
}

/// The themes in key order (a stable insertion sort).
fn sort_by_name(themes: Vec<AppTheme>) -> (r: Vec<AppTheme>)
    ensures
        r@ == sort_themes(themes@),
{
    let ghost orig = themes@;
    let mut rest = themes;
    let mut sorted: Vec<AppTheme> = Vec::new();
    let ghost mut k: int = 0;
    while rest.len() > 0
        invariant
            0 <= k <= orig.len(),
            rest@.len() + k == orig.len(),
            rest@ == orig.skip(k),
            sorted@ == sort_themes(orig.take(k)),
        decreases rest@.len(),
    {
        let t = rest.remove(0);
        assert(t == orig[k]);
        assert(rest@ =~= orig.skip(k + 1));
        assert(orig.take(k + 1).drop_last() =~= orig.take(k));
        insert_theme_sorted(&mut sorted, t);
        proof {
            k = k + 1;
        }
    }
    assert(orig.take(k) =~= orig);
    sorted
}

/// The themes with each run of equal keys reduced to its first theme.
fn dedup_by_name(themes: Vec<AppTheme>) -> (r: Vec<AppTheme>)
    ensures
        r@ == dedup_keys(themes@),
{
    let ghost orig = themes@;
    let mut rest = themes;
    let mut kept: Vec<AppTheme> = Vec::new();
    let ghost mut k: int = 0;
    while rest.len() > 0
        invariant
            0 <= k <= orig.len(),
            rest@.len() + k == orig.len(),
            rest@ == orig.skip(k),
            kept@ == dedup_keys(orig.take(k)),
            k > 0 ==> kept@.len() > 0,
        decreases rest@.len(),
    {
        let t = rest.remove(0);
        assert(t == orig[k]);
        assert(rest@ =~= orig.skip(k + 1));
        assert(orig.take(k + 1).drop_last() =~= orig.take(k));
        if kept.len() == 0 {
            assert(k == 0);
            assert(orig.take(1) =~= seq![t]);
            kept.push(t);
        } else {
            let last_key = key_of(&kept[kept.len() - 1]);
            let key = key_of(&t);
            if !crate::text::same_chars(&last_key, &key) {
                kept.push(t);
            }
        }
        proof {
            k = k + 1;
        }
    }
    assert(orig.take(k) =~= orig);
    kept
}

/// The list of themes offered, from the themes read from the theme files
/// in the order read: the first of each name (the built-in themes when
/// there is none), in name order, one per name.
pub fn collect_themes(found: Vec<AppTheme>) -> (r: Vec<AppTheme>)
    ensures
        r@.len() > 0,
        first_of_each_name(found@).len() > 0 ==> r@ == collected_themes(found@),
        first_of_each_name(found@).len() == 0 ==> r@.len() == 1 && is_dark_theme(r@[0]),
        offered_themes_ok(found@, r@),
{
    let ghost f = found@;
    let kept = keep_first_of_each_name(found);
    let base = if kept.len() == 0 {
        AppTheme::presets()
    } else {
        kept
    };
    let ghost b = base@;
    let sorted = sort_by_name(base);
    let r = dedup_by_name(sorted);
    proof {
        lemma_sort_themes_len(b);
        lemma_dedup_keys_nonempty(sort_themes(b));
        if b.len() == 1 {
            assert(b.drop_last() =~= Seq::<AppTheme>::empty());
            assert(sort_themes(b.drop_last()) == Seq::<AppTheme>::empty());
            assert(insert_theme(Seq::<AppTheme>::empty(), b.last()) == seq![b.last()]);
            assert(sort_themes(b) =~= b);
        }
        if f.len() > 0 {
            lemma_collected_themes_ok(f);
        }
    }
    r
}

// ---------------------------------------------------------------------
// Finding a theme by name
// ---------------------------------------------------------------------

/// The position of the first theme whose key is `k`.
pub open spec fn theme_position(s: Seq<AppTheme>, k: Seq<char>) -> Option<nat>
    decreases s.len(),
{
    if s.len() == 0 {
        None
    } else {
        match theme_position(s.drop_last(), k) {
            Some(j) => Some(j),
            None => if theme_key(s.last()) == k {
                Some((s.len() - 1) as nat)
            } else {
                None
            },
        }
    }
}

proof fn lemma_theme_position_prefix(s: Seq<AppTheme>, k: Seq<char>, n: int)
    requires
        0 <= n <= s.len(),
        theme_position(s.take(n), k) is Some,
    ensures
        theme_position(s, k) == theme_position(s.take(n), k),
    decreases s.len() - n,
{
    if n < s.len() {
        assert(s.take(n + 1).drop_last() == s.take(n));
        lemma_theme_position_prefix(s, k, n + 1);
    } else {
        assert(s.take(n) == s);
    }
}

/// The position of the first theme whose key is `k`.
pub fn find_theme(themes: &Vec<AppTheme>, k: &Vec<char>) -> (r: Option<usize>)
    ensures
        match r {
            Some(j) => theme_position(themes@, k@) == Some(j as nat) && j < themes@.len(),
            None => theme_position(themes@, k@) is None,
        },
{
    let mut i: usize = 0;
    while i < themes.len()
        invariant
            i <= themes@.len(),
            theme_position(themes@.take(i as int), k@) is None,
        decreases themes@.len() - i,
    {
        assert(themes@.take(i + 1).drop_last() == themes@.take(i as int));
        let key = key_of(&themes[i]);
        if crate::text::same_chars(&key, k) {
            proof {
                lemma_theme_position_prefix(themes@, k@, (i + 1) as int);
            }
            return Some(i);
        }
        i += 1;
    }
    assert(themes@.take(themes@.len() as int) == themes@);
    None
}

/// The theme called `theme_name` (compared trimmed and lowercased), or the
/// first theme when there is none of that name.
pub fn get_current_theme(all_themes: &Vec<AppTheme>, theme_name: &str) -> (r: AppTheme)
    requires
        all_themes@.len() > 0,
    ensures
        match theme_position(all_themes@, name_key(theme_name@)) {
            Some(j) => r == all_themes@[j as int],
            None => r == all_themes@[0],
        },
{
    let trimmed = trim_str(theme_name);
    let lower = to_lower(trimmed.as_str());
    let k = chars_of(lower.as_str());
    match find_theme(all_themes, &k) {
        Some(j) => all_themes[j].duplicate(),
        None => all_themes[0].duplicate(),
    }
}

// ---------------------------------------------------------------------
// Scrolling long text
// ---------------------------------------------------------------------

/// Ticks the text rests at each end of its scroll.
pub open spec fn marquee_pause() -> nat {
    15
}

/// Where the visible window of a scrolling text starts at `tick`: it rests
/// at the start, moves one character per tick to the end, rests there,
/// and starts over.
pub open spec fn marquee_start(len: nat, avail: nat, tick: u64) -> nat {
    let diff = (len - avail) as nat;
    let cycle = diff + 2 * marquee_pause();
    let t = (tick as nat) % cycle;
    if t < marquee_pause() {
        0
    } else if t < marquee_pause() + diff {
        (t - marquee_pause()) as nat
    } else {
        diff
    }
}

/// What a field shows in `available_space` columns at `tick`: the whole
/// text when it fits (or there is no room), else a window of exactly
/// `available_space` characters.
pub open spec fn marquee_spec(value: Seq<char>, available_space: nat, tick: u64) -> Seq<char> {
    if value.len() > available_space && available_space > 0 {
        let s = marquee_start(value.len(), available_space, tick);
        value.subrange(s as int, (s + available_space) as int)
    } else {
        value
    }
}

/// What a field shows in `available_space` columns at animation tick
/// `tick`. (The cycle is counted in `u128`, where `diff + 30` cannot
/// overflow.)
pub fn apply_marquee(value: &str, available_space: usize, tick: u64) -> (r: String)
    ensures
        r@ == marquee_spec(value@, available_space as nat, tick),
{
    let v = chars_of(value);
    let text_len = v.len();
    if text_len > available_space && available_space > 0 {
        let diff = text_len - available_space;
        let pause_ticks: u128 = 15;
        let cycle_ticks: u128 = diff as u128 + (pause_ticks * 2);
        let current_cycle_tick: u128 = (tick as u128) % cycle_ticks;
        let start_index: usize = if current_cycle_tick < pause_ticks {
            0
        } else if current_cycle_tick < pause_ticks + diff as u128 {
            (current_cycle_tick - pause_ticks) as usize
        } else {
            diff
        };
        let w = slice_chars(&v, start_index, start_index + available_space);
        string_of(&w)
    } else {
        value.to_owned()
    }
}

// ---------------------------------------------------------------------
// The interface state
// ---------------------------------------------------------------------

/// A key the interface reacts to.
#[derive(Debug, Clone, Copy, PartialEq, Eq, Structural)]
pub enum KeyInput {
    Char(char),
    Esc,
    Tab,
    Left,
    Right,
    Other,
}

/// What the interface must do after a key.
#[derive(Debug, Clone, Copy, PartialEq, Eq, Structural)]
pub enum AppAction {
    /// Leave the interface.
    Quit,
    /// The theme changed: save the settings and repaint the background.
    ThemeChanged,
    /// Nothing beyond redrawing.
    Continue,
}

/// The day after day `i` of the week, Sunday followed by Monday.
pub open spec fn next_day_index(i: int) -> int {
    (i + 1) % 7
}

/// The day before day `i` of the week, Monday preceded by Sunday.
pub open spec fn prev_day_index(i: int) -> int {
    if i > 0 {
        i - 1
    } else {
        6
    }
}

/// The theme after theme `i` of `n`, the last followed by the first.
pub open spec fn next_theme_index(i: int, n: int) -> int {
    (i + 1) % n
}

/// What one press of Tab does to the state `a`, giving `b`: the next
/// theme (after the last, the first) is selected and named in the
/// settings, the animation restarts, and nothing else changes.
pub open spec fn next_theme_step(a: App, b: App) -> bool {
    &&& b.wf()
    &&& b.current_theme_idx == next_theme_index(
        a.current_theme_idx as int,
        a.all_themes@.len() as int,
    )
    &&& b.config.theme_name == b.all_themes@[b.current_theme_idx as int].name
    &&& b.tick == 0
    &&& b.all_themes == a.all_themes
    &&& b.selected_day_idx == a.selected_day_idx
    &&& b.days == a.days
    &&& b.show_help == a.show_help
    &&& b.menu_data == a.menu_data
    &&& b.config.daily_check == a.config.daily_check
    &&& b.config.unit_code == a.config.unit_code
}

/// Each state of `states` comes from the one before by one press of Tab.
pub open spec fn tab_presses(states: Seq<App>) -> bool
    decreases states.len(),
{
    states.len() <= 1 || (next_theme_step(states[states.len() - 2], states.last()) && tab_presses(
        states.drop_last(),
    ))
}

/// The interface's state.
pub struct App {
    pub menu_data: MenuData,
    pub all_themes: Vec<AppTheme>,
    pub current_theme_idx: usize,
    pub selected_day_idx: usize,
    pub days: Vec<String>,
    pub tick: u64,
    pub show_help: bool,
    pub config: Config,
}

/// The weekday tab names, Monday first.
pub open spec fn day_names() -> Seq<Seq<char>> {
    seq!["Segunda"@, "Terça"@, "Quarta"@, "Quinta"@, "Sexta"@, "Sábado"@, "Domingo"@]
}

/// The weekday tab names, Monday first.
pub fn weekday_names() -> (r: Vec<String>)
    ensures
        crate::text::string_views(r@) == day_names(),
        r@.len() == 7,
        forall|i: int| 0 <= i < 7 ==> #[trigger] r@[i]@ == weekday_name(i + 1),
{
    let mut r: Vec<String> = Vec::new();
    r.push(String::from_str("Segunda"));
    r.push(String::from_str("Terça"));
    r.push(String::from_str("Quarta"));
    r.push(String::from_str("Quinta"));
    r.push(String::from_str("Sexta"));
    r.push(String::from_str("Sábado"));
    r.push(String::from_str("Domingo"));
    assert(crate::text::string_views(r@) =~= day_names());
    proof {
        lemma_day_tabs_name_their_days();
        assert forall|i: int| 0 <= i < 7 implies #[trigger] r@[i]@ == weekday_name(i + 1) by {
            assert(crate::text::string_views(r@)[i] == r@[i]@);
        }
    }
    r
}

impl App {
    /// The state is consistent: there is a theme, the selected theme and
    /// day exist, and there are seven day tabs.
    pub open spec fn wf(&self) -> bool {
        &&& self.all_themes@.len() > 0
        &&& self.current_theme_idx < self.all_themes@.len()
        &&& crate::text::string_views(self.days@) == day_names()
        &&& self.selected_day_idx < self.days@.len()
    }

    /// The starting state: the themes offered from those read from the
    /// theme files, the theme named in the settings (else the first), the
    /// current weekday (Monday = 0) selected, help hidden, tick 0.
    pub fn new(
        menu_data: MenuData,
        config: Config,
        found_themes: Vec<AppTheme>,
        current_weekday: usize,
    ) -> (app: App)
        ensures
            app.wf(),
            first_of_each_name(found_themes@).len() > 0 ==> app.all_themes@ == collected_themes(
                found_themes@,
            ),
            first_of_each_name(found_themes@).len() == 0 ==> app.all_themes@.len() == 1
                && is_dark_theme(app.all_themes@[0]),
            offered_themes_ok(found_themes@, app.all_themes@),
            app.current_theme_idx == (match theme_position(
                app.all_themes@,
                name_key(config.theme_name@),
            ) {
                Some(j) => j,
                None => 0,
            }),
            app.selected_day_idx == (if current_weekday < 7 {
                current_weekday
            } else {
                0
            }),
            app.tick == 0,
            !app.show_help,
            app.menu_data == menu_data,
            app.config == config,
    {
        let days = weekday_names();
        let selected_day_idx = if current_weekday < 7 {
            current_weekday
        } else {
            0
        };
        let all_themes = collect_themes(found_themes);
        let trimmed = trim_str(config.theme_name.as_str());
        let lower = to_lower(trimmed.as_str());
        let k = chars_of(lower.as_str());
        let current_theme_idx = match find_theme(&all_themes, &k) {
            Some(j) => j,
            None => 0,
        };
        assert(days@.len() == 7) by {
            assert(crate::text::string_views(days@).len() == days@.len());
        }
        App {
            menu_data,
            all_themes,
            current_theme_idx,
            selected_day_idx,
            days,
            tick: 0,
            show_help: false,
            config,
        }
    }

    /// The selected theme.
    pub fn theme(&self) -> (t: &AppTheme)
        requires
            self.wf(),
        ensures
            *t == self.all_themes@[self.current_theme_idx as int],
    {
        &self.all_themes[self.current_theme_idx]
    }

    /// Selects the next theme (after the last, the first), records its name
    /// in the settings, and restarts the animation.
    pub fn next_theme(&mut self)
        requires
            old(self).wf(),
        ensures
            next_theme_step(*old(self), *final(self)),
    {
        let n = self.all_themes.len();
        self.current_theme_idx = (self.current_theme_idx + 1) % n;
        self.config.theme_name = self.all_themes[self.current_theme_idx].name.clone();
        self.tick = 0;
    }

    /// Selects the next day (after Sunday, Monday) and restarts the
    /// animation.
    pub fn next_day(&mut self)
        requires
            old(self).wf(),
        ensures
            final(self).wf(),
            final(self).selected_day_idx == next_day_index(old(self).selected_day_idx as int),
            final(self).tick == 0,
            final(self).current_theme_idx == old(self).current_theme_idx,
            final(self).all_themes == old(self).all_themes,
            final(self).days == old(self).days,
            final(self).show_help == old(self).show_help,
            final(self).menu_data == old(self).menu_data,
            final(self).config == old(self).config,
    {
        proof {
            assert(self.days@.len() == day_names().len());
        }
        self.selected_day_idx = (self.selected_day_idx + 1) % self.days.len();
        self.tick = 0;
    }

    /// Selects the previous day (before Monday, Sunday) and restarts the
    /// animation.
    pub fn prev_day(&mut self)
        requires
            old(self).wf(),
        ensures
            final(self).wf(),
            final(self).selected_day_idx == prev_day_index(old(self).selected_day_idx as int),
            final(self).tick == 0,
            final(self).current_theme_idx == old(self).current_theme_idx,
            final(self).all_themes == old(self).all_themes,
            final(self).days == old(self).days,
            final(self).show_help == old(self).show_help,
            final(self).menu_data == old(self).menu_data,
            final(self).config == old(self).config,
    {
        proof {
            assert(self.days@.len() == day_names().len());
        }
        if self.selected_day_idx > 0 {
            self.selected_day_idx -= 1;
        } else {
            self.selected_day_idx = self.days.len() - 1;
        }
        self.tick = 0;
    }

    /// Shows or hides the help screen.
    pub fn toggle_help(&mut self)
        ensures
            final(self).show_help == !old(self).show_help,
            final(self).selected_day_idx == old(self).selected_day_idx,
            final(self).tick == old(self).tick,
            final(self).current_theme_idx == old(self).current_theme_idx,
            final(self).all_themes == old(self).all_themes,
            final(self).days == old(self).days,
            final(self).menu_data == old(self).menu_data,
            final(self).config == old(self).config,
    {
        self.show_help = !self.show_help;
    }

    /// Advances the animation by one tick, wrapping to 0 after
    /// `u64::MAX` (as the optimised build's integer addition does).
    pub fn on_tick(&mut self)
        ensures
            final(self).tick == (if old(self).tick == u64::MAX {
                0
            } else {
                (old(self).tick + 1) as u64
            }),
            final(self).show_help == old(self).show_help,
            final(self).selected_day_idx == old(self).selected_day_idx,
            final(self).current_theme_idx == old(self).current_theme_idx,
            final(self).all_themes == old(self).all_themes,
            final(self).days == old(self).days,
            final(self).menu_data == old(self).menu_data,
            final(self).config == old(self).config,
    {
        if self.tick == 0xFFFF_FFFF_FFFF_FFFF {
            self.tick = 0;
        } else {
            self.tick = self.tick + 1;
        }
    }

    /// Reacts to a key: `q` quits, Esc toggles help, and, while help is
    /// hidden, Tab changes the theme and Left/Right change the day.
    pub fn handle_key(&mut self, key: KeyInput) -> (action: AppAction)
        requires
            old(self).wf(),
        ensures
            final(self).wf(),
            action == (match key {
                KeyInput::Char(c) => if c == 'q' {
                    AppAction::Quit
                } else {
                    AppAction::Continue
                },
                KeyInput::Tab => if old(self).show_help {
                    AppAction::Continue
                } else {
                    AppAction::ThemeChanged
                },
                _ => AppAction::Continue,
            }),
            key == KeyInput::Esc ==> final(self).show_help == !old(self).show_help,
            key != KeyInput::Esc ==> final(self).show_help == old(self).show_help,
            (key == KeyInput::Tab && !old(self).show_help) ==> final(self).current_theme_idx
                == next_theme_index(
                old(self).current_theme_idx as int,
                old(self).all_themes@.len() as int,
            ),
            !(key == KeyInput::Tab && !old(self).show_help) ==> final(self).current_theme_idx
                == old(self).current_theme_idx,
            (key == KeyInput::Left && !old(self).show_help) ==> final(self).selected_day_idx
                == prev_day_index(old(self).selected_day_idx as int),
            (key == KeyInput::Right && !old(self).show_help) ==> final(self).selected_day_idx
                == next_day_index(old(self).selected_day_idx as int),
            !((key == KeyInput::Left || key == KeyInput::Right) && !old(self).show_help)
                ==> final(self).selected_day_idx == old(self).selected_day_idx,
            ((key == KeyInput::Tab || key == KeyInput::Left || key == KeyInput::Right)
                && !old(self).show_help) ==> final(self).tick == 0,
            !((key == KeyInput::Tab || key == KeyInput::Left || key == KeyInput::Right)
                && !old(self).show_help) ==> final(self).tick == old(self).tick,
            (key == KeyInput::Tab && !old(self).show_help) ==> final(self).config.theme_name
                == final(self).all_themes@[final(self).current_theme_idx as int].name,
            !(key == KeyInput::Tab && !old(self).show_help) ==> final(self).config
                == old(self).config,
            final(self).config.unit_code == old(self).config.unit_code,
            final(self).config.daily_check == old(self).config.daily_check,
            final(self).days == old(self).days,
            final(self).all_themes == old(self).all_themes,
            final(self).menu_data == old(self).menu_data,
    {
        match key {
            KeyInput::Char(c) => {
                if c == 'q' {
                    AppAction::Quit
                } else {
                    AppAction::Continue
                }
            },
            KeyInput::Esc => {
                self.toggle_help();
                AppAction::Continue
            },
            KeyInput::Tab => {
                if !self.show_help {
                    self.next_theme();
                    AppAction::ThemeChanged
                } else {
                    AppAction::Continue
                }
            },
            KeyInput::Left => {
                if !self.show_help {
                    self.prev_day();
                }
                AppAction::Continue
            },
            KeyInput::Right => {
                if !self.show_help {
                    self.next_day();
                }
                AppAction::Continue
            },
            KeyInput::Other => AppAction::Continue,
        }
    }
}

// ---------------------------------------------------------------------
// Laws of the interface
// ---------------------------------------------------------------------

/// Going back a day undoes going forward a day, and going forward undoes
/// going back.
pub proof fn lemma_day_steps_undo(i: int)
    requires
        0 <= i < 7,
    ensures
        prev_day_index(next_day_index(i)) == i,
        next_day_index(prev_day_index(i)) == i,
        0 <= next_day_index(i) < 7,
        0 <= prev_day_index(i) < 7,
{
}

/// Theme `i` after `k` presses of Tab.
pub open spec fn theme_after(i: int, n: int, k: nat) -> int
    decreases k,
{
    if k == 0 {
        i
    } else {
        next_theme_index(theme_after(i, n, (k - 1) as nat), n)
    }
}

/// Pressing Tab once per theme comes back to the theme one started from,
/// and every press selects an existing theme.
pub proof fn lemma_theme_cycle(i: int, n: int)
    requires
        0 <= i < n,
    ensures
        theme_after(i, n, n as nat) == i,
        forall|k: nat| 0 <= #[trigger] theme_after(i, n, k) < n,
{
    assert forall|k: nat| theme_after(i, n, k) == (i + k) % n by {
        lemma_theme_after(i, n, k);
    }
    assert((i + n) % n == i) by (nonlinear_arith)
        requires
            0 <= i < n,
    ;
    assert forall|k: nat| 0 <= #[trigger] theme_after(i, n, k) < n by {
        lemma_theme_after(i, n, k);
    }
}

proof fn lemma_theme_after(i: int, n: int, k: nat)
    requires
        0 <= i < n,
    ensures
        theme_after(i, n, k) == (i + k) % n,
    decreases k,
{
    if k > 0 {
        lemma_theme_after(i, n, (k - 1) as nat);
        let a = i + k - 1;
        assert(((a % n) + 1) % n == (a + 1) % n) by (nonlinear_arith)
            requires
                n > 0,
                a >= 0,
        ;
    } else {
        assert(i % n == i) by (nonlinear_arith)
            requires
                0 <= i < n,
        ;
    }
}

/// The scroll of a text that does not fit repeats every `diff + 30`
/// ticks, `diff` being how many characters do not fit.
pub proof fn lemma_marquee_periodic(value: Seq<char>, avail: nat, tick: u64)
    requires
        value.len() > avail > 0,
        tick + (value.len() - avail) + 2 * marquee_pause() <= u64::MAX,
    ensures
        marquee_spec(value, avail, tick) == marquee_spec(
            value,
            avail,
            (tick + (value.len() - avail) + 2 * marquee_pause()) as u64,
        ),
{
    let c = (value.len() - avail) + 2 * marquee_pause();
    let t = tick as int;
    assert((t + c) % c == t % c) by (nonlinear_arith)
        requires
            c > 0,
            t >= 0,
    ;
}

/// What a field shows never exceeds the room it has (when it has room):
/// the whole text when it fits, else exactly `avail` characters of it.
pub proof fn lemma_marquee_fits(value: Seq<char>, avail: nat, tick: u64)
    requires
        avail > 0,
    ensures
        marquee_spec(value, avail, tick).len() == if value.len() > avail {
            avail
        } else {
            value.len()
        },
{
    if value.len() > avail {
        let d = (value.len() - avail) as nat;
        let c = d + 2 * marquee_pause();
        let t = (tick as nat) % c;
        assert(t < c) by (nonlinear_arith)
            requires
                c > 0,
                t == (tick as nat) % c,
        ;
    }
}

// ---------------------------------------------------------------------
// Laws of the theme list
// ---------------------------------------------------------------------

/// No text comes before itself.
pub proof fn lemma_lex_irreflexive(a: Seq<char>)
    ensures
        !lex_lt(a, a),
    decreases a.len(),
{
    if a.len() > 0 {
        lemma_lex_irreflexive(a.drop_first());
    }
}

/// The text order is transitive.
pub proof fn lemma_lex_transitive(a: Seq<char>, b: Seq<char>, c: Seq<char>)
    requires
        lex_lt(a, b),
        lex_lt(b, c),
    ensures
        lex_lt(a, c),
    decreases a.len(),
{
    if a.len() > 0 && a[0] == b[0] && b[0] == c[0] {
        lemma_lex_transitive(a.drop_first(), b.drop_first(), c.drop_first());
    }
}

/// Of two different texts, one comes before the other.
pub proof fn lemma_lex_total(a: Seq<char>, b: Seq<char>)
    requires
        a != b,
    ensures
        lex_lt(a, b) || lex_lt(b, a),
    decreases a.len(),
{
    if a.len() > 0 && b.len() > 0 && a[0] == b[0] {
        if a.drop_first() == b.drop_first() {
            assert(a.drop_first().len() == a.len() - 1);
            assert(b.drop_first().len() == b.len() - 1);
            assert(a.len() == b.len());
            assert(a =~= b) by {
                assert forall|i: int| 0 <= i < a.len() implies a[i] == b[i] by {
                    if i > 0 {
                        assert(a[i] == a.drop_first()[i - 1]);
                        assert(b[i] == b.drop_first()[i - 1]);
                    }
                }
            }
        }
        lemma_lex_total(a.drop_first(), b.drop_first());
    } else if a.len() == 0 && b.len() == 0 {
        assert(a =~= b);
    }
}

/// The themes are in strictly increasing key order (so no two share a
/// key).
pub open spec fn keys_increasing(s: Seq<AppTheme>) -> bool {
    forall|i: int, j: int| 0 <= i < j < s.len() ==> lex_lt(theme_key(s[i]), theme_key(s[j]))
}

/// No two themes share a key.
pub open spec fn keys_distinct(s: Seq<AppTheme>) -> bool {
    forall|i: int, j: int| 0 <= i < j < s.len() ==> theme_key(s[i]) != theme_key(s[j])
}

proof fn lemma_first_of_each_name(s: Seq<AppTheme>)
    ensures
        keys_distinct(first_of_each_name(s)),
        forall|x: AppTheme| #[trigger] first_of_each_name(s).contains(x) ==> s.contains(x),
    decreases s.len(),
{
    if s.len() > 0 {
        let t = s.drop_last();
        lemma_first_of_each_name(t);
        let p = first_of_each_name(t);
        let r = first_of_each_name(s);
        if !theme_keys(p).contains(theme_key(s.last())) {
            assert forall|i: int, j: int| 0 <= i < j < r.len() implies theme_key(r[i])
                != theme_key(r[j]) by {
                if j == r.len() - 1 {
                    assert(theme_keys(p)[i] == theme_key(r[i]));
                }
            }
        }
        assert forall|x: AppTheme| #[trigger] r.contains(x) implies s.contains(x) by {
            let i = choose|i: int| 0 <= i < r.len() && r[i] == x;
            if i < p.len() {
                assert(p.contains(x));
                let k = choose|k: int| 0 <= k < t.len() && t[k] == x;
                assert(s[k] == x);
            } else {
                assert(s[s.len() - 1] == x);
            }
        }
    }
}

proof fn lemma_insert_theme(s: Seq<AppTheme>, t: AppTheme)
    requires
        keys_increasing(s),
        forall|k: int| 0 <= k < s.len() ==> theme_key(s[k]) != theme_key(t),
    ensures
        keys_increasing(insert_theme(s, t)),
        forall|x: AppTheme| #[trigger] insert_theme(s, t).contains(x) <==> (s.contains(x) || x
            == t),
    decreases s.len(),
{
    let r = insert_theme(s, t);
    if s.len() == 0 {
        assert forall|x: AppTheme| #[trigger] r.contains(x) <==> (s.contains(x) || x == t) by {
            if r.contains(x) || x == t {
                assert(r[0] == t);
            }
        }
    } else if !lex_lt(theme_key(t), theme_key(s.last())) {
        lemma_lex_total(theme_key(t), theme_key(s.last()));
        assert forall|i: int, j: int| 0 <= i < j < r.len() implies lex_lt(
            theme_key(r[i]),
            theme_key(r[j]),
        ) by {
            if j == r.len() - 1 && i < s.len() - 1 {
                lemma_lex_transitive(theme_key(s[i]), theme_key(s.last()), theme_key(t));
            }
        }
        assert forall|x: AppTheme| #[trigger] r.contains(x) <==> (s.contains(x) || x == t) by {
            if r.contains(x) {
                let i = choose|i: int| 0 <= i < r.len() && r[i] == x;
                if i < s.len() {
                    assert(s[i] == x);
                }
            }
            if s.contains(x) {
                let i = choose|i: int| 0 <= i < s.len() && s[i] == x;
                assert(r[i] == x);
            }
            if x == t {
                assert(r[s.len() as int] == t);
            }
        }
    } else {
        let u = s.drop_last();
        assert(keys_increasing(u));
        lemma_insert_theme(u, t);
        let q = insert_theme(u, t);
        assert(r == q.push(s.last()));
        assert forall|x: AppTheme| #[trigger] r.contains(x) <==> (s.contains(x) || x == t) by {
            if r.contains(x) {
                let i = choose|i: int| 0 <= i < r.len() && r[i] == x;
                if i < q.len() {
                    assert(q[i] == x);
                    assert(q.contains(x));
                    if u.contains(x) {
                        let k = choose|k: int| 0 <= k < u.len() && u[k] == x;
                        assert(s[k] == x);
                    }
                } else {
                    assert(s[s.len() - 1] == x);
                }
            }
            if s.contains(x) {
                let i = choose|i: int| 0 <= i < s.len() && s[i] == x;
                if i < u.len() {
                    assert(u[i] == x);
                    assert(u.contains(x));
                    assert(q.contains(x));
                    let k = choose|k: int| 0 <= k < q.len() && q[k] == x;
                    assert(r[k] == x);
                } else {
                    assert(r[q.len() as int] == x);
                }
            }
            if x == t {
                assert(q.contains(t));
                let k = choose|k: int| 0 <= k < q.len() && q[k] == t;
                assert(r[k] == t);
            }
        }
        assert forall|i: int, j: int| 0 <= i < j < r.len() implies lex_lt(
            theme_key(r[i]),
            theme_key(r[j]),
        ) by {
            if j == r.len() - 1 {
                assert(q.contains(r[i]));
                if u.contains(r[i]) {
                    let k = choose|k: int| 0 <= k < u.len() && u[k] == r[i];
                    assert(s[k] == r[i]);
                }
            } else {
                assert(r[i] == q[i] && r[j] == q[j]);
            }
        }
    }
}

proof fn lemma_sort_themes(s: Seq<AppTheme>)
    requires
        keys_distinct(s),
    ensures
        keys_increasing(sort_themes(s)),
        forall|x: AppTheme| #[trigger] sort_themes(s).contains(x) <==> s.contains(x),
    decreases s.len(),
{
    if s.len() > 0 {
        let u = s.drop_last();
        assert(keys_distinct(u));
        lemma_sort_themes(u);
        let q = sort_themes(u);
        assert forall|k: int| 0 <= k < q.len() implies theme_key(q[k]) != theme_key(s.last()) by {
            assert(q.contains(q[k]));
            let i = choose|i: int| 0 <= i < u.len() && u[i] == q[k];
            assert(s[i] == q[k]);
        }
        lemma_insert_theme(q, s.last());
        assert forall|x: AppTheme| #[trigger] sort_themes(s).contains(x) <==> s.contains(x) by {
            if s.contains(x) {
                let i = choose|i: int| 0 <= i < s.len() && s[i] == x;
                if i < u.len() {
                    assert(u[i] == x);
                    assert(u.contains(x));
                }
            }
            if u.contains(x) {
                let i = choose|i: int| 0 <= i < u.len() && u[i] == x;
                assert(s[i] == x);
            }
            if x == s.last() {
                assert(s[s.len() - 1] == x);
            }
        }
    }
}

proof fn lemma_dedup_increasing(s: Seq<AppTheme>)
    requires
        keys_increasing(s),
    ensures
        dedup_keys(s) == s,
    decreases s.len(),
{
    if s.len() > 1 {
        let u = s.drop_last();
        assert(keys_increasing(u));
        lemma_dedup_increasing(u);
        lemma_lex_irreflexive(theme_key(s.last()));
        assert(lex_lt(theme_key(s[s.len() - 2]), theme_key(s[s.len() - 1])));
        assert(u.push(s.last()) =~= s);
    }
}

/// The themes offered are in strictly increasing name order (no name
/// twice), each is one of the themes read, and a theme of every name read
/// is offered.
pub proof fn lemma_collected_themes(found: Seq<AppTheme>)
    ensures
        keys_increasing(collected_themes(found)),
        forall|x: AppTheme| #[trigger] collected_themes(found).contains(x) ==> found.contains(x),
        forall|i: int|
            0 <= i < found.len() ==> #[trigger] theme_keys(collected_themes(found)).contains(
                theme_key(found[i]),
            ),
{
    let f = first_of_each_name(found);
    lemma_first_of_each_name(found);
    lemma_sort_themes(f);
    lemma_dedup_increasing(sort_themes(f));
    let r = collected_themes(found);
    assert(r == sort_themes(f));
    assert forall|i: int| 0 <= i < found.len() implies #[trigger] theme_keys(r).contains(
        theme_key(found[i]),
    ) by {
        lemma_first_of_each_name_covers(found, i);
        let k = choose|k: int| 0 <= k < f.len() && theme_key(f[k]) == theme_key(found[i]);
        assert(f.contains(f[k]));
        assert(r.contains(f[k]));
        let j = choose|j: int| 0 <= j < r.len() && r[j] == f[k];
        assert(theme_keys(r)[j] == theme_key(found[i]));
    }
}

proof fn lemma_first_of_each_name_covers(s: Seq<AppTheme>, i: int)
    requires
        0 <= i < s.len(),
    ensures
        exists|k: int|
            0 <= k < first_of_each_name(s).len() && theme_key(first_of_each_name(s)[k])
                == theme_key(s[i]),
    decreases s.len(),
{
    let u = s.drop_last();
    let p = first_of_each_name(u);
    let r = first_of_each_name(s);
    if i < s.len() - 1 {
        lemma_first_of_each_name_covers(u, i);
        let k = choose|k: int| 0 <= k < p.len() && theme_key(p[k]) == theme_key(u[i]);
        assert(r[k] == p[k]);
    } else {
        if theme_keys(p).contains(theme_key(s.last())) {
            let k = choose|k: int| 0 <= k < p.len() && theme_keys(p)[k] == theme_key(s.last());
            assert(r[k] == p[k]);
        } else {
            assert(r[p.len() as int] == s.last());
        }
    }
}

/// In a list with one theme per name, looking a theme up by its own name
/// finds it.
pub proof fn lemma_theme_found_by_name(s: Seq<AppTheme>, i: int)
    requires
        keys_distinct(s),
        0 <= i < s.len(),
    ensures
        theme_position(s, theme_key(s[i])) == Some(i as nat),
    decreases s.len(),
{
    let u = s.drop_last();
    if i < s.len() - 1 {
        assert(keys_distinct(u));
        assert(u[i] == s[i]);
        lemma_theme_found_by_name(u, i);
    } else {
        lemma_theme_position_absent(u, theme_key(s[i]));
    }
}

proof fn lemma_theme_position_absent(s: Seq<AppTheme>, k: Seq<char>)
    requires
        forall|j: int| 0 <= j < s.len() ==> theme_key(s[j]) != k,
    ensures
        theme_position(s, k) is None,
    decreases s.len(),
{
    if s.len() > 0 {
        lemma_theme_position_absent(s.drop_last(), k);
    }
}

/// The theme choice survives a restart: after Tab the settings name the
/// selected theme, and starting again from the same theme files with
/// those settings selects that same theme.
pub proof fn lemma_theme_choice_persists(found: Seq<AppTheme>, i: int)
    requires
        first_of_each_name(found).len() > 0,
        0 <= i < collected_themes(found).len(),
    ensures
        theme_position(
            collected_themes(found),
            name_key(collected_themes(found)[i].name@),
        ) == Some(i as nat),
{
    let r = collected_themes(found);
    lemma_collected_themes(found);
    assert forall|a: int, b: int| 0 <= a < b < r.len() implies theme_key(r[a]) != theme_key(
        r[b],
    ) by {
        lemma_lex_irreflexive(theme_key(r[a]));
    }
    lemma_theme_found_by_name(r, i);
}

proof fn lemma_first_of_each_name_contents(s: Seq<AppTheme>)
    ensures
        forall|x: AppTheme|
            #[trigger] first_of_each_name(s).contains(x) <==> first_of_its_name(s, x),
    decreases s.len(),
{
    if s.len() > 0 {
        let t = s.drop_last();
        let y = s.last();
        lemma_first_of_each_name_contents(t);
        lemma_first_of_each_name(t);
        let p = first_of_each_name(t);
        let r = first_of_each_name(s);
        assert forall|x: AppTheme| first_of_its_name(t, x) implies first_of_its_name(s, x) by {
            let i = choose|i: int|
                #![trigger t[i]]
                0 <= i < t.len() && t[i] == x && forall|j: int|
                    0 <= j < i ==> theme_key(#[trigger] t[j]) != theme_key(x);
            assert(s[i] == x);
            assert forall|j: int| 0 <= j < i implies theme_key(#[trigger] s[j]) != theme_key(x) by {
                assert(s[j] == t[j]);
            }
        }
        assert forall|x: AppTheme| #[trigger] r.contains(x) <==> first_of_its_name(s, x) by {
            if first_of_its_name(s, x) {
                let i = choose|i: int|
                    #![trigger s[i]]
                    0 <= i < s.len() && s[i] == x && forall|j: int|
                        0 <= j < i ==> theme_key(#[trigger] s[j]) != theme_key(x);
                if i < t.len() {
                    assert(t[i] == x);
                    assert forall|j: int| 0 <= j < i implies theme_key(#[trigger] t[j])
                        != theme_key(x) by {
                        assert(s[j] == t[j]);
                    }
                    assert(first_of_its_name(t, x));
                    assert(p.contains(x));
                    if !theme_keys(p).contains(theme_key(y)) {
                        let k = choose|k: int| 0 <= k < p.len() && p[k] == x;
                        assert(r[k] == x);
                    }
                } else {
                    assert(x == y);
                    if theme_keys(p).contains(theme_key(y)) {
                        let k = choose|k: int| 0 <= k < p.len() && theme_keys(p)[k] == theme_key(y);
                        assert(p.contains(p[k]));
                        let j = choose|j: int| 0 <= j < t.len() && t[j] == p[k];
                        assert(s[j] == t[j]);
                    }
                    assert(r[p.len() as int] == y);
                }
            }
            if r.contains(x) {
                let k = choose|k: int| 0 <= k < r.len() && r[k] == x;
                if k < p.len() {
                    assert(p[k] == x);
                    assert(p.contains(x));
                } else {
                    assert(x == y);
                    assert(!theme_keys(p).contains(theme_key(y)));
                    assert forall|j: int| 0 <= j < t.len() implies theme_key(#[trigger] s[j])
                        != theme_key(x) by {
                        lemma_first_of_each_name_covers(t, j);
                        let q = choose|q: int|
                            0 <= q < p.len() && theme_key(p[q]) == theme_key(t[j]);
                        assert(s[j] == t[j]);
                        assert(theme_keys(p)[q] == theme_key(p[q]));
                    }
                    assert(s[t.len() as int] == x);
                }
            }
        }
    }
}

proof fn lemma_collected_themes_ok(found: Seq<AppTheme>)
    requires
        found.len() > 0,
    ensures
        first_of_each_name(found).len() > 0,
        offered_themes_ok(found, collected_themes(found)),
{
    let f = first_of_each_name(found);
    lemma_collected_themes(found);
    lemma_first_of_each_name(found);
    lemma_sort_themes(f);
    lemma_dedup_increasing(sort_themes(f));
    lemma_first_of_each_name_contents(found);
    lemma_first_of_each_name_covers(found, 0);
    let r = collected_themes(found);
    assert(r == sort_themes(f));
    assert(f.contains(f[0]));
    assert(r.contains(f[0]));
}

/// Two lists in strictly increasing name order holding the same themes
/// are the same list.
proof fn lemma_sorted_same_contents(a: Seq<AppTheme>, b: Seq<AppTheme>)
    requires
        keys_increasing(a),
        keys_increasing(b),
        forall|x: AppTheme|
            #![trigger a.contains(x)]
            #![trigger b.contains(x)]
            a.contains(x) <==> b.contains(x),
    ensures
        a == b,
    decreases a.len(),
{
    if a.len() == 0 {
        if b.len() > 0 {
            assert(b.contains(b[0]));
        }
        assert(a =~= b);
    } else if b.len() == 0 {
        assert(a.contains(a[0]));
    } else {
        let x = a.last();
        let y = b.last();
        assert(a.contains(x));
        assert(b.contains(y));
        if x != y {
            let k = choose|k: int| 0 <= k < b.len() && b[k] == x;
            let m = choose|m: int| 0 <= m < a.len() && a[m] == y;
            assert(k < b.len() - 1);
            assert(m < a.len() - 1);
            assert(lex_lt(theme_key(x), theme_key(y)));
            assert(lex_lt(theme_key(y), theme_key(x)));
            lemma_lex_transitive(theme_key(x), theme_key(y), theme_key(x));
            lemma_lex_irreflexive(theme_key(x));
        }
        let a1 = a.drop_last();
        let b1 = b.drop_last();
        assert forall|z: AppTheme| #[trigger] a1.contains(z) <==> b1.contains(z) by {
            if a1.contains(z) {
                let i = choose|i: int| 0 <= i < a1.len() && a1[i] == z;
                assert(a[i] == z);
                assert(a.contains(z));
                assert(lex_lt(theme_key(z), theme_key(x)));
                lemma_lex_irreflexive(theme_key(x));
                let j = choose|j: int| 0 <= j < b.len() && b[j] == z;
                assert(j != b.len() - 1);
                assert(b1[j] == z);
            }
            if b1.contains(z) {
                let i = choose|i: int| 0 <= i < b1.len() && b1[i] == z;
                assert(b[i] == z);
                assert(b.contains(z));
                assert(lex_lt(theme_key(z), theme_key(y)));
                lemma_lex_irreflexive(theme_key(y));
                let j = choose|j: int| 0 <= j < a.len() && a[j] == z;
                assert(j != a.len() - 1);
                assert(a1[j] == z);
            }
        }
        lemma_sorted_same_contents(a1, b1);
        assert(a =~= a1.push(x));
        assert(b =~= b1.push(y));
    }
}

/// Loading the themes gives one list only: any two lists offered for the
/// same themes read (as `collect_themes` and `App::new` give them) hold
/// the same themes, field by field, in the same order.
pub proof fn lemma_offered_themes_agree(found: Seq<AppTheme>, r1: Seq<AppTheme>, r2: Seq<AppTheme>)
    requires
        offered_themes_ok(found, r1),
        offered_themes_ok(found, r2),
    ensures
        r1.len() == r2.len(),
        forall|i: int| 0 <= i < r1.len() ==> same_theme(#[trigger] r1[i], r2[i]),
{
    if found.len() > 0 {
        assert forall|x: AppTheme| #[trigger] r1.contains(x) <==> r2.contains(x) by {
            if r1.contains(x) {
                assert(first_of_its_name(found, x));
            }
            if r2.contains(x) {
                assert(first_of_its_name(found, x));
            }
        }
        lemma_sorted_same_contents(r1, r2);
    }
}

proof fn lemma_tab_presses(states: Seq<App>, k: int)
    requires
        0 <= k < states.len(),
        states[0].wf(),
        tab_presses(states),
    ensures
        states[k].all_themes == states[0].all_themes,
        states[k].current_theme_idx == theme_after(
            states[0].current_theme_idx as int,
            states[0].all_themes@.len() as int,
            k as nat,
        ),
        k > 0 ==> states[k].config.theme_name == states[k].all_themes@[states[k].current_theme_idx as int].name,
    decreases states.len(),
{
    if k < states.len() - 1 {
        let t = states.drop_last();
        lemma_tab_presses(t, k);
    } else if k > 0 {
        let t = states.drop_last();
        lemma_tab_presses(t, k - 1);
        assert(next_theme_step(states[k - 1], states[k]));
    }
}

/// Pressing Tab once per installed theme, one call of `next_theme` after
/// another, comes back to the theme one started from, and the settings
/// then name it.
pub proof fn lemma_tab_cycles_back(states: Seq<App>)
    requires
        states.len() >= 2,
        states[0].wf(),
        states.len() == states[0].all_themes@.len() + 1,
        tab_presses(states),
    ensures
        states.last().current_theme_idx == states[0].current_theme_idx,
        states.last().config.theme_name == states[0].all_themes@[states[0].current_theme_idx as int].name,
{
    let n = states[0].all_themes@.len() as int;
    let i = states[0].current_theme_idx as int;
    lemma_tab_presses(states, states.len() - 1);
    lemma_theme_cycle(i, n);
}

/// The Portuguese name of the weekday numbered `n`, Monday = 1 to
/// Sunday = 7 (the numbering of the menu's days).
pub open spec fn weekday_name(n: int) -> Seq<char> {
    if n == 1 {
        "Segunda"@
    } else if n == 2 {
        "Terça"@
    } else if n == 3 {
        "Quarta"@
    } else if n == 4 {
        "Quinta"@
    } else if n == 5 {
        "Sexta"@
    } else if n == 6 {
        "Sábado"@
    } else {
        "Domingo"@
    }
}

/// There are seven day tabs, and tab `i` names the weekday numbered
/// `i + 1`, the number of the menu day it shows: Saturday's menu (day 6)
/// is under the tab Sábado, Sunday's (day 7) under Domingo.
pub proof fn lemma_day_tabs_name_their_days()
    ensures
        day_names().len() == 7,
        forall|i: int| 0 <= i < 7 ==> #[trigger] day_names()[i] == weekday_name(i + 1),
{
    assert forall|i: int| 0 <= i < 7 implies #[trigger] day_names()[i] == weekday_name(i + 1) by {
        if i == 0 {
        } else if i == 1 {
        } else if i == 2 {
        } else if i == 3 {
        } else if i == 4 {
        } else if i == 5 {
        } else {
        }
    }
}

} // verus!
