//! Character-sequence toolkit: the string operations the menu logic needs,
//! each specified over `Seq<char>`.

use vstd::prelude::*;

verus! {

// ---------------------------------------------------------------------
// Calls into std that vstd leaves unspecified
// ---------------------------------------------------------------------

/// What `str::to_lowercase` returns for a string: its lowercase
/// equivalent by the Unicode case mappings (which may change the length).
/// Only ASCII text has its result spelled out (`lower_text`); for other
/// text the name stands for it.
pub uninterp spec fn lowercase(s: Seq<char>) -> Seq<char>;

/// Whether a character has the Unicode `White_Space` property, which is
/// what `char::is_whitespace` tests: the fixed list of 25 code points of
/// the Unicode Character Database (`PropList.txt`), tabs to carriage
/// return, space, next line, no-break space, ogham space mark, the spaces
/// from en quad to hair space, line and paragraph separators, narrow
/// no-break space, medium mathematical space and ideographic space.
pub open spec fn is_white_space(c: char) -> bool {
    let n = c as u32;
    ||| 0x09 <= n && n <= 0x0D
    ||| n == 0x20
    ||| n == 0x85
    ||| n == 0xA0
    ||| n == 0x1680
    ||| 0x2000 <= n && n <= 0x200A
    ||| n == 0x2028
    ||| n == 0x2029
    ||| n == 0x202F
    ||| n == 0x205F
    ||| n == 0x3000
}

/// Appends one character to a `String` (std's `String::push`).
#[verifier::external_body]
pub(crate) fn push_char(s: &mut String, c: char)
    ensures
        final(s)@ == old(s)@.push(c),
{
    s.push(c);
}

/// A character of the ASCII range.
pub open spec fn is_ascii_char(c: char) -> bool {
    c as u32 <= 0x7F
}

/// A text of ASCII characters only.
pub open spec fn is_ascii_text(s: Seq<char>) -> bool {
    forall|i: int| 0 <= i < s.len() ==> is_ascii_char(#[trigger] s[i])
}

/// An ASCII character in lower case: `A` to `Z` become `a` to `z`, the
/// others stay.
pub open spec fn ascii_lower_char(c: char) -> char {
    if 'A' <= c && c <= 'Z' {
        ((c as u32) + 32) as char
    } else {
        c
    }
}

/// An ASCII text in lower case.
pub open spec fn ascii_lowercase(s: Seq<char>) -> Seq<char> {
    Seq::new(s.len(), |i: int| ascii_lower_char(s[i]))
}

/// A text in lower case as `str::to_lowercase` gives it: spelled out for
/// ASCII text, the name `lowercase` otherwise.
pub open spec fn lower_text(s: Seq<char>) -> Seq<char> {
    if is_ascii_text(s) {
        ascii_lowercase(s)
    } else {
        lowercase(s)
    }
}

/// std's `str::to_lowercase`; the result is the name `lowercase` applied
/// to the argument. For ASCII text the Unicode lowercase mapping the
/// documentation refers to maps `A` to `Z` to `a` to `z` and keeps every
/// other character, which the contract states.
#[verifier::external_body]
pub(crate) fn to_lower(s: &str) -> (r: String)
    ensures
        r@ == lowercase(s@),
        is_ascii_text(s@) ==> r@ == ascii_lowercase(s@),
{
    s.to_lowercase()
}

/// std's `char::is_whitespace`, documented as the Unicode `White_Space`
/// property; the contract states that property's code points
/// (`is_white_space`).
#[verifier::external_body]
pub(crate) fn is_whitespace(c: char) -> (r: bool)
    ensures
        r == is_white_space(c),
{
    c.is_whitespace()
}

/// Whether a number is a Unicode scalar value, i.e. what `char::from_u32`
/// accepts.
pub open spec fn is_scalar_value(n: u32) -> bool {
    n <= 0xD7FF || (0xE000 <= n && n <= 0x10FFFF)
}

/// std's `char::from_u32`: `Some` exactly for scalar values, holding the
/// character with that code point.
#[verifier::external_body]
pub(crate) fn char_from_u32(n: u32) -> (r: Option<char>)
    ensures
        r is Some <==> is_scalar_value(n),
        r matches Some(c) ==> c == n as char && c as u32 == n,
{
    std::char::from_u32(n)
}

// ---------------------------------------------------------------------
// Conversions
// ---------------------------------------------------------------------

/// The characters of `s`, in order.
pub fn chars_of(s: &str) -> (v: Vec<char>)
    ensures
        v@ == s@,
{
    let mut v: Vec<char> = Vec::new();
    for c in it: s.chars()
        invariant
            v@ == it.seq().take(it.index() as int),
            it.seq() == s@,
    {
        v.push(c);
    }
    v
}

/// A `String` holding exactly the characters of `v`.
pub fn string_of(v: &Vec<char>) -> (s: String)
    ensures
        s@ == v@,
{
    let mut s = String::new();
    let mut i: usize = 0;
    while i < v.len()
        invariant
            i <= v@.len(),
            s@ == v@.take(i as int),
        decreases v@.len() - i,
    {
        push_char(&mut s, v[i]);
        i += 1;
        assert(s@ == v@.take(i as int));
    }
    assert(v@.take(v@.len() as int) == v@);
    s
}

/// The views of a sequence of character vectors.
pub open spec fn views(v: Seq<Vec<char>>) -> Seq<Seq<char>> {
    Seq::new(v.len(), |i: int| v[i]@)
}

/// The views of a sequence of strings.
pub open spec fn string_views(v: Seq<String>) -> Seq<Seq<char>> {
    Seq::new(v.len(), |i: int| v[i]@)
}

/// Strings holding the character vectors of `v`, in order.
pub fn strings_of(v: &Vec<Vec<char>>) -> (r: Vec<String>)
    ensures
        string_views(r@) == views(v@),
{
    let mut r: Vec<String> = Vec::new();
    let mut i: usize = 0;
    while i < v.len()
        invariant
            i <= v@.len(),
            string_views(r@) == views(v@).take(i as int),
        decreases v@.len() - i,
    {
        let ghost old_r = r@;
        r.push(string_of(&v[i]));
        assert(string_views(r@) =~= string_views(old_r).push(v@[i as int]@));
        assert(views(v@).take(i + 1) =~= views(v@).take(i as int).push(v@[i as int]@));
        i += 1;
    }
    assert(views(v@).take(v@.len() as int) == views(v@));
    r
}

/// The characters of each string.
pub fn strings_to_chars(v: &Vec<String>) -> (r: Vec<Vec<char>>)
    ensures
        views(r@) == string_views(v@),
{
    let mut r: Vec<Vec<char>> = Vec::new();
    let mut i: usize = 0;
    while i < v.len()
        invariant
            i <= v@.len(),
            views(r@) == string_views(v@).take(i as int),
        decreases v@.len() - i,
    {
        let ghost old_r = r@;
        r.push(chars_of(v[i].as_str()));
        assert(views(r@) =~= views(old_r).push(v@[i as int]@));
        assert(string_views(v@).take(i + 1) =~= string_views(v@).take(i as int).push(
            v@[i as int]@,
        ));
        i += 1;
    }
    assert(string_views(v@).take(v@.len() as int) =~= string_views(v@));
    r
}

/// The characters `v[from..to]`.
pub fn slice_chars(v: &Vec<char>, from: usize, to: usize) -> (r: Vec<char>)
    requires
        from <= to <= v@.len(),
    ensures
        r@ == v@.subrange(from as int, to as int),
{
    let mut r: Vec<char> = Vec::new();
    let mut i: usize = from;
    while i < to
        invariant
            from <= i <= to <= v@.len(),
            r@ == v@.subrange(from as int, i as int),
        decreases to - i,
    {
        r.push(v[i]);
        i += 1;
        assert(r@ == v@.subrange(from as int, i as int));
    }
    r
}

/// Whether two character vectors are equal.
pub fn same_chars(a: &Vec<char>, b: &Vec<char>) -> (r: bool)
    ensures
        r == (a@ == b@),
{
    if a.len() != b.len() {
        return false;
    }
    let mut i: usize = 0;
    while i < a.len()
        invariant
            a@.len() == b@.len(),
            i <= a@.len(),
            forall|j: int| 0 <= j < i ==> a@[j] == b@[j],
        decreases a@.len() - i,
    {
        if a[i] != b[i] {
            return false;
        }
        i += 1;
    }
    assert(a@ =~= b@);
    true
}

/// `a` followed by `b`.
pub fn concat_chars(a: &Vec<char>, b: &Vec<char>) -> (r: Vec<char>)
    ensures
        r@ == a@ + b@,
{
    let mut r = a.clone();
    assert(r@ == a@);
    let mut i: usize = 0;
    while i < b.len()
        invariant
            i <= b@.len(),
            r@ == a@ + b@.take(i as int),
        decreases b@.len() - i,
    {
        r.push(b[i]);
        i += 1;
        assert(r@ == a@ + b@.take(i as int));
    }
    assert(b@.take(b@.len() as int) == b@);
    r
}

// ---------------------------------------------------------------------
// Searching
// ---------------------------------------------------------------------

/// `p` occurs in `s` starting at position `i`.
pub open spec fn occurs_at(s: Seq<char>, p: Seq<char>, i: int) -> bool {
    0 <= i && i + p.len() <= s.len() && s.subrange(i, i + p.len()) == p
}

/// The first position at or after `i` where `p` occurs in `s`.
pub open spec fn find_from(s: Seq<char>, p: Seq<char>, i: nat) -> Option<nat>
    decreases s.len() - i,
{
    if i + p.len() > s.len() || i >= s.len() {
        None
    } else if s.subrange(i as int, (i + p.len()) as int) == p {
        Some(i)
    } else {
        find_from(s, p, i + 1)
    }
}

/// The first position where `p` occurs in `s` (as `str::find`).
pub open spec fn first_occurrence(s: Seq<char>, p: Seq<char>) -> Option<nat> {
    find_from(s, p, 0)
}

/// `find_from` gives the least occurrence at or after `i`, and `None` only
/// when there is none.
pub proof fn lemma_find_from(s: Seq<char>, p: Seq<char>, i: nat)
    requires
        p.len() > 0,
    ensures
        find_from(s, p, i) matches Some(k) ==> i <= k && occurs_at(s, p, k as int) && forall|j: int|
            i <= j < k ==> !occurs_at(s, p, j),
        find_from(s, p, i) is None ==> forall|j: int| i <= j ==> !occurs_at(s, p, j),
    decreases s.len() - i,
{
    if i + p.len() > s.len() || i >= s.len() {
    } else if s.subrange(i as int, (i + p.len()) as int) == p {
    } else {
        lemma_find_from(s, p, i + 1);
    }
}

/// Searching from `a + i` in `s` is searching from `i` in `s` without its
/// first `a` characters.
pub proof fn lemma_find_from_skip(s: Seq<char>, p: Seq<char>, a: nat, i: nat)
    requires
        a <= s.len(),
    ensures
        find_from(s.skip(a as int), p, i) == (match find_from(s, p, a + i) {
            Some(k) => Some((k - a) as nat),
            None => None,
        }),
    decreases s.len() - a - i,
{
    let t = s.skip(a as int);
    if i + p.len() > t.len() || i >= t.len() {
    } else {
        assert(t.subrange(i as int, (i + p.len()) as int) == s.subrange((a + i) as int, (a + i + p.len()) as int));
        if t.subrange(i as int, (i + p.len()) as int) == p {
        } else {
            lemma_find_from_skip(s, p, a, i + 1);
        }
    }
}

/// Whether `p` occurs in `s` at position `i`.
pub fn matches_at(s: &Vec<char>, p: &Vec<char>, i: usize) -> (r: bool)
    requires
        i + p@.len() <= s@.len(),
    ensures
        r == (s@.subrange(i as int, i + p@.len()) == p@),
{
    let n = s.len();
    let mut j: usize = 0;
    while j < p.len()
        invariant
            n == s@.len(),
            i + p@.len() <= s@.len(),
            j <= p@.len(),
            i + j <= s@.len(),
            forall|k: int| 0 <= k < j ==> s@[i + k] == p@[k],
        decreases p@.len() - j,
    {
        if s[i + j] != p[j] {
            assert(s@.subrange(i as int, i + p@.len())[j as int] != p@[j as int]);
            return false;
        }
        j += 1;
    }
    assert(s@.subrange(i as int, i + p@.len()) =~= p@);
    true
}

/// The first position at or after `start` where `p` occurs in `s`.
pub fn find_at(s: &Vec<char>, p: &Vec<char>, start: usize) -> (r: Option<usize>)
    ensures
        match r {
            Some(k) => find_from(s@, p@, start as nat) == Some(k as nat),
            None => find_from(s@, p@, start as nat) is None,
        },
        r matches Some(k) ==> k + p@.len() <= s@.len(),
{
    let mut i: usize = start;
    while i < s.len() && p.len() <= s.len() - i
        invariant
            start <= i,
            find_from(s@, p@, start as nat) == find_from(s@, p@, i as nat),
        decreases s@.len() - i,
    {
        if matches_at(s, p, i) {
            return Some(i);
        }
        i += 1;
    }
    None
}

/// The first position where `p` occurs in `s` (as `str::find`).
pub fn find(s: &Vec<char>, p: &Vec<char>) -> (r: Option<usize>)
    ensures
        match r {
            Some(k) => first_occurrence(s@, p@) == Some(k as nat),
            None => first_occurrence(s@, p@) is None,
        },
        r matches Some(k) ==> k + p@.len() <= s@.len(),
{
    find_at(s, p, 0)
}

/// Whether `p` occurs somewhere in `s` (as `str::contains`).
pub open spec fn contains_seq(s: Seq<char>, p: Seq<char>) -> bool {
    first_occurrence(s, p) is Some
}

/// Whether `p` occurs somewhere in `s`.
pub fn contains(s: &Vec<char>, p: &Vec<char>) -> (r: bool)
    ensures
        r == contains_seq(s@, p@),
{
    find(s, p).is_some()
}

/// The last position at or before `i` where `p` occurs in `s`.
pub open spec fn last_occurrence_upto(s: Seq<char>, p: Seq<char>, i: int) -> Option<nat>
    decreases i + 1,
{
    if i < 0 {
        None
    } else if occurs_at(s, p, i) {
        Some(i as nat)
    } else {
        last_occurrence_upto(s, p, i - 1)
    }
}

/// `last_occurrence_upto` gives the greatest occurrence at or before `i`.
pub proof fn lemma_last_occurrence_upto(s: Seq<char>, p: Seq<char>, i: int)
    ensures
        last_occurrence_upto(s, p, i) matches Some(k) ==> k <= i && occurs_at(s, p, k as int)
            && forall|j: int| k < j <= i ==> !occurs_at(s, p, j),
        last_occurrence_upto(s, p, i) is None ==> forall|j: int| j <= i ==> !occurs_at(s, p, j),
    decreases i + 1,
{
    if i >= 0 && !occurs_at(s, p, i) {
        lemma_last_occurrence_upto(s, p, i - 1);
    }
}

/// The last position where `p` occurs in `s` (as `str::rfind`).
pub open spec fn last_occurrence(s: Seq<char>, p: Seq<char>) -> Option<nat> {
    last_occurrence_upto(s, p, s.len() - p.len())
}

/// The last position where `p` occurs in `s`.
pub fn rfind(s: &Vec<char>, p: &Vec<char>) -> (r: Option<usize>)
    ensures
        match r {
            Some(k) => last_occurrence(s@, p@) == Some(k as nat),
            None => last_occurrence(s@, p@) is None,
        },
{
    if p.len() > s.len() {
        assert(last_occurrence_upto(s@, p@, s@.len() - p@.len()) is None);
        return None;
    }
    let mut i: usize = s.len() - p.len();
    loop
        invariant
            i + p@.len() <= s@.len(),
            last_occurrence(s@, p@) == last_occurrence_upto(s@, p@, i as int),
        decreases i,
    {
        if matches_at(s, p, i) {
            return Some(i);
        }
        if i == 0 {
            assert(last_occurrence_upto(s@, p@, -1) is None);
            return None;
        }
        i -= 1;
    }
}

/// Whether `s` begins with `p`.
pub open spec fn starts_with_seq(s: Seq<char>, p: Seq<char>) -> bool {
    p.len() <= s.len() && s.take(p.len() as int) == p
}

/// Whether `s` begins with `p` (as `str::starts_with`).
pub fn starts_with(s: &Vec<char>, p: &Vec<char>) -> (r: bool)
    ensures
        r == starts_with_seq(s@, p@),
{
    if p.len() > s.len() {
        return false;
    }
    let r = matches_at(s, p, 0);
    assert(s@.subrange(0, p@.len() as int) == s@.take(p@.len() as int));
    r
}

// ---------------------------------------------------------------------
// Splitting, joining, replacing
// ---------------------------------------------------------------------

/// The pieces of `s` between the non-overlapping occurrences of `p`,
/// found from the left (as `str::split` with a non-empty pattern).
pub open spec fn split_seq(s: Seq<char>, p: Seq<char>) -> Seq<Seq<char>>
    decreases s.len(),
{
    if p.len() == 0 {
        seq![s]
    } else {
        match first_occurrence(s, p) {
            Some(i) => {
                proof {
                    lemma_find_from(s, p, 0);
                }
                seq![s.take(i as int)] + split_seq(s.skip((i + p.len()) as int), p)
            },
            None => seq![s],
        }
    }
}

/// Where `a` holds no character that starts `p`, the first piece of
/// `a + p + b` split at `p` is `a`, and so is the first piece of `a`
/// alone.
pub proof fn lemma_split_head(a: Seq<char>, p: Seq<char>, b: Seq<char>)
    requires
        p.len() > 0,
        forall|i: int| 0 <= i < a.len() ==> a[i] != p[0],
    ensures
        split_seq(a + p + b, p)[0] == a,
        split_seq(a, p)[0] == a,
{
    let s = a + p + b;
    lemma_find_from(s, p, 0);
    assert(occurs_at(s, p, a.len() as int)) by {
        assert(s.subrange(a.len() as int, (a.len() + p.len()) as int) =~= p);
    }
    assert forall|j: int| 0 <= j < a.len() implies !occurs_at(s, p, j) by {
        if occurs_at(s, p, j) {
            assert(s.subrange(j, j + p.len())[0] == s[j]);
        }
    }
    assert(first_occurrence(s, p) == Some(a.len()));
    assert(s.take(a.len() as int) =~= a);
    lemma_find_from(a, p, 0);
    assert forall|j: int| 0 <= j implies !occurs_at(a, p, j) by {
        if occurs_at(a, p, j) {
            assert(a.subrange(j, j + p.len())[0] == a[j]);
        }
    }
    assert(first_occurrence(a, p) is None);
}

/// `split_seq` always yields at least one piece.
pub proof fn lemma_split_nonempty(s: Seq<char>, p: Seq<char>)
    ensures
        split_seq(s, p).len() >= 1,
{
    if p.len() > 0 {
        if let Some(i) = first_occurrence(s, p) {
            assert((seq![s.take(i as int)] + split_seq(s.skip((i + p.len()) as int), p)).len()
                >= 1);
        }
    }
}

/// Where `p` occurs at `m` and nowhere before, its first occurrence is at
/// `m`.
pub proof fn lemma_first_occurrence_is(s: Seq<char>, p: Seq<char>, m: int)
    requires
        p.len() > 0,
        occurs_at(s, p, m),
        forall|j: int| 0 <= j < m ==> !occurs_at(s, p, j),
    ensures
        first_occurrence(s, p) == Some(m as nat),
{
    lemma_find_from(s, p, 0);
}

/// Where `p` occurs at `m` and nowhere after, its last occurrence is at
/// `m`.
pub proof fn lemma_last_occurrence_is(s: Seq<char>, p: Seq<char>, m: int)
    requires
        occurs_at(s, p, m),
        forall|j: int| j > m ==> !occurs_at(s, p, j),
    ensures
        last_occurrence(s, p) == Some(m as nat),
{
    lemma_last_occurrence_upto(s, p, s.len() - p.len());
}

/// Splitting `z + sep + w` at `sep`, where no occurrence of `sep` starts
/// inside `z` and runs past its end, gives the pieces of `z` followed by
/// those of `w`.
pub proof fn lemma_split_concat(z: Seq<char>, sep: Seq<char>, w: Seq<char>)
    requires
        sep.len() > 0,
        forall|j: int|
            0 <= j < z.len() && j + sep.len() > z.len() ==> !occurs_at(
                #[trigger] (z + sep + w),
                sep,
                j,
            ),
    ensures
        split_seq(z + sep + w, sep) == split_seq(z, sep) + split_seq(w, sep),
    decreases z.len(),
{
    let s = z + sep + w;
    let n = sep.len() as int;
    assert forall|j: int| 0 <= j && j + n <= z.len() implies (occurs_at(s, sep, j)
        <==> occurs_at(z, sep, j)) by {
        assert(s.subrange(j, j + n) =~= z.subrange(j, j + n));
    }
    lemma_find_from(z, sep, 0);
    match first_occurrence(z, sep) {
        Some(i) => {
            let i = i as int;
            lemma_first_occurrence_is(s, sep, i);
            let z2 = z.skip(i + n);
            assert(s.take(i) =~= z.take(i));
            assert(s.skip(i + n) =~= z2 + sep + w);
            assert forall|j: int| 0 <= j < z2.len() && j + n > z2.len() implies !occurs_at(
                #[trigger] (z2 + sep + w),
                sep,
                j,
            ) by {
                let j2 = j + i + n;
                assert((z2 + sep + w).subrange(j, j + n) =~= s.subrange(j2, j2 + n));
                assert(!occurs_at(z + sep + w, sep, j2));
            }
            lemma_split_concat(z2, sep, w);
            assert(split_seq(s, sep) == seq![s.take(i)] + split_seq(s.skip(i + n), sep));
            assert(split_seq(z, sep) == seq![z.take(i)] + split_seq(z2, sep));
            assert(split_seq(s, sep) =~= split_seq(z, sep) + split_seq(w, sep));
        },
        None => {
            let m = z.len() as int;
            assert(s.subrange(m, m + n) =~= sep);
            assert forall|j: int| 0 <= j < m implies !occurs_at(s, sep, j) by {
                if j + n > m {
                    assert(!occurs_at(z + sep + w, sep, j));
                }
            }
            lemma_first_occurrence_is(s, sep, m);
            assert(s.take(m) =~= z);
            assert(s.skip(m + n) =~= w);
            assert(split_seq(s, sep) =~= split_seq(z, sep) + split_seq(w, sep));
        },
    }
}

/// Splitting `z + t` at `sep`, where no occurrence of `sep` runs past the
/// end of `z`, gives the pieces of `z` with `t` added to the last one.
pub proof fn lemma_split_extend(z: Seq<char>, sep: Seq<char>, t: Seq<char>)
    requires
        sep.len() > 0,
        forall|j: int| 0 <= j && j + sep.len() > z.len() ==> !occurs_at(#[trigger] (z + t), sep, j),
    ensures
        split_seq(z + t, sep) == split_seq(z, sep).drop_last().push(split_seq(z, sep).last() + t),
    decreases z.len(),
{
    let s = z + t;
    let n = sep.len() as int;
    assert forall|j: int| 0 <= j && j + n <= z.len() implies (occurs_at(s, sep, j)
        <==> occurs_at(z, sep, j)) by {
        assert(s.subrange(j, j + n) =~= z.subrange(j, j + n));
    }
    lemma_find_from(z, sep, 0);
    lemma_find_from(s, sep, 0);
    match first_occurrence(z, sep) {
        Some(i) => {
            let i = i as int;
            lemma_first_occurrence_is(s, sep, i);
            let z2 = z.skip(i + n);
            assert(s.take(i) =~= z.take(i));
            assert(s.skip(i + n) =~= z2 + t);
            assert forall|j: int| 0 <= j && j + n > z2.len() implies !occurs_at(
                #[trigger] (z2 + t),
                sep,
                j,
            ) by {
                let j2 = j + i + n;
                if j + n <= (z2 + t).len() {
                    assert((z2 + t).subrange(j, j + n) =~= s.subrange(j2, j2 + n));
                }
                assert(!occurs_at(z + t, sep, j2));
            }
            lemma_split_extend(z2, sep, t);
            lemma_split_nonempty(z2, sep);
            let rest = split_seq(z2, sep);
            assert(split_seq(s, sep) == seq![s.take(i)] + split_seq(s.skip(i + n), sep));
            assert(split_seq(z, sep) == seq![z.take(i)] + rest);
            assert(split_seq(s, sep) =~= split_seq(z, sep).drop_last().push(
                split_seq(z, sep).last() + t,
            ));
        },
        None => {
            assert forall|j: int| 0 <= j implies !occurs_at(s, sep, j) by {
                if j + n > z.len() {
                    assert(!occurs_at(z + t, sep, j));
                }
            }
            assert(first_occurrence(s, sep) is None);
            assert(split_seq(s, sep) =~= split_seq(z, sep).drop_last().push(
                split_seq(z, sep).last() + t,
            ));
        },
    }
}

/// The pieces joined with `sep` between consecutive ones (as
/// `[String]::join`).
pub open spec fn join_seq(parts: Seq<Seq<char>>, sep: Seq<char>) -> Seq<char>
    decreases parts.len(),
{
    if parts.len() == 0 {
        Seq::empty()
    } else if parts.len() == 1 {
        parts[0]
    } else {
        parts[0] + sep + join_seq(parts.drop_first(), sep)
    }
}

/// `s` with every non-overlapping occurrence of `from`, found from the
/// left, replaced by `to` (as `str::replace`).
pub open spec fn replace_seq(s: Seq<char>, from: Seq<char>, to: Seq<char>) -> Seq<char> {
    join_seq(split_seq(s, from), to)
}

/// Unfolds `split_seq` at a position `a` where a piece starts.
proof fn lemma_split_step(s: Seq<char>, p: Seq<char>, a: nat)
    requires
        p.len() > 0,
        a <= s.len(),
    ensures
        find_from(s, p, a) matches Some(k) ==> split_seq(s.skip(a as int), p) == seq![
            s.subrange(a as int, k as int),
        ] + split_seq(s.skip((k + p.len()) as int), p),
        find_from(s, p, a) is None ==> split_seq(s.skip(a as int), p) == seq![s.skip(a as int)],
{
    let t = s.skip(a as int);
    lemma_find_from_skip(s, p, a, 0);
    lemma_find_from(s, p, a);
    if let Some(k) = find_from(s, p, a) {
        assert(t.take(k - a) == s.subrange(a as int, k as int));
        assert(t.skip(k - a + p.len()) == s.skip((k + p.len()) as int));
    }
}

/// The pieces of `s` between the occurrences of `p` (as `str::split`).
pub fn split(s: &Vec<char>, p: &Vec<char>) -> (r: Vec<Vec<char>>)
    requires
        p@.len() > 0,
    ensures
        views(r@) == split_seq(s@, p@),
{
    let mut parts: Vec<Vec<char>> = Vec::new();
    let mut start: usize = 0;
    let n = s.len();
    assert(s@.skip(0) == s@);
    loop
        invariant
            n == s@.len(),
            p@.len() > 0,
            start <= s@.len(),
            views(parts@) + split_seq(s@.skip(start as int), p@) == split_seq(s@, p@),
        decreases s@.len() - start,
    {
        proof {
            lemma_split_step(s@, p@, start as nat);
            lemma_find_from(s@, p@, start as nat);
        }
        match find_at(s, p, start) {
            Some(k) => {
                assert(start <= k && k + p@.len() <= s@.len());
                let piece = slice_chars(s, start, k);
                let ghost old_parts = parts@;
                parts.push(piece);
                assert(views(parts@) == views(old_parts).push(piece@));
                assert(views(parts@) + split_seq(s@.skip(k + p@.len()), p@) == views(old_parts) + (
                seq![piece@] + split_seq(s@.skip(k + p@.len()), p@)));
                start = k + p.len();
            },
            None => {
                let piece = slice_chars(s, start, s.len());
                let ghost old_parts = parts@;
                parts.push(piece);
                assert(views(parts@) == views(old_parts).push(piece@));
                assert(piece@ == s@.skip(start as int));
                assert(views(parts@) == views(old_parts) + seq![s@.skip(start as int)]);
                return parts;
            },
        }
    }
}

/// `join_seq` grows by one piece at the end.
pub proof fn lemma_join_push(parts: Seq<Seq<char>>, sep: Seq<char>, x: Seq<char>)
    ensures
        join_seq(parts.push(x), sep) == if parts.len() == 0 {
            x
        } else {
            join_seq(parts, sep) + sep + x
        },
    decreases parts.len(),
{
    if parts.len() == 0 {
    } else if parts.len() == 1 {
        assert(parts.push(x).drop_first() =~= seq![x]);
        assert(join_seq(seq![x], sep) == x);
        assert(parts.push(x)[0] == parts[0]);
    } else {
        lemma_join_push(parts.drop_first(), sep, x);
        assert(parts.push(x).drop_first() =~= parts.drop_first().push(x));
        assert(parts.push(x)[0] == parts[0]);
        let a = parts[0];
        let b = join_seq(parts.drop_first(), sep);
        assert(a + sep + (b + sep + x) =~= a + sep + b + sep + x);
    }
}

/// The pieces joined with `sep` between consecutive ones.
pub fn join(parts: &Vec<Vec<char>>, sep: &Vec<char>) -> (r: Vec<char>)
    ensures
        r@ == join_seq(views(parts@), sep@),
{
    let mut r: Vec<char> = Vec::new();
    let mut i: usize = 0;
    while i < parts.len()
        invariant
            i <= parts@.len(),
            r@ == join_seq(views(parts@).take(i as int), sep@),
        decreases parts@.len() - i,
    {
        proof {
            lemma_join_push(views(parts@).take(i as int), sep@, parts@[i as int]@);
            assert(views(parts@).take(i + 1) == views(parts@).take(i as int).push(parts@[i as int]@));
        }
        if i > 0 {
            r = concat_chars(&r, sep);
        }
        r = concat_chars(&r, &parts[i]);
        i += 1;
    }
    assert(views(parts@).take(parts@.len() as int) == views(parts@));
    r
}

/// `s` with every occurrence of `from` replaced by `to` (as
/// `str::replace`).
pub fn replace(s: &Vec<char>, from: &Vec<char>, to: &Vec<char>) -> (r: Vec<char>)
    requires
        from@.len() > 0,
    ensures
        r@ == replace_seq(s@, from@, to@),
{
    let parts = split(s, from);
    join(&parts, to)
}

// ---------------------------------------------------------------------
// Trimming
// ---------------------------------------------------------------------

/// `s` without its leading white space.
pub open spec fn trim_start_seq(s: Seq<char>) -> Seq<char>
    decreases s.len(),
{
    if s.len() > 0 && is_white_space(s[0]) {
        trim_start_seq(s.drop_first())
    } else {
        s
    }
}

/// `s` without its trailing white space.
pub open spec fn trim_end_seq(s: Seq<char>) -> Seq<char>
    decreases s.len(),
{
    if s.len() > 0 && is_white_space(s.last()) {
        trim_end_seq(s.drop_last())
    } else {
        s
    }
}

/// `s` without leading and trailing white space (as `str::trim`).
pub open spec fn trim_seq(s: Seq<char>) -> Seq<char> {
    trim_end_seq(trim_start_seq(s))
}

proof fn lemma_trim_start_skip(s: Seq<char>, i: int)
    requires
        0 <= i <= s.len(),
        forall|j: int| 0 <= j < i ==> is_white_space(s[j]),
    ensures
        trim_start_seq(s) == trim_start_seq(s.skip(i)),
    decreases i,
{
    if i > 0 {
        assert(s.drop_first().skip(i - 1) == s.skip(i));
        lemma_trim_start_skip(s.drop_first(), i - 1);
    } else {
        assert(s.skip(0) == s);
    }
}

proof fn lemma_trim_end_take(s: Seq<char>, i: int)
    requires
        0 <= i <= s.len(),
        forall|j: int| i <= j < s.len() ==> is_white_space(s[j]),
    ensures
        trim_end_seq(s) == trim_end_seq(s.take(i)),
    decreases s.len() - i,
{
    if i < s.len() {
        assert(s.drop_last().take(i) == s.take(i));
        lemma_trim_end_take(s.drop_last(), i);
    } else {
        assert(s.take(i) == s);
    }
}

/// `s` without leading and trailing white space.
pub fn trim(s: &Vec<char>) -> (r: Vec<char>)
    ensures
        r@ == trim_seq(s@),
{
    let mut a: usize = 0;
    while a < s.len() && is_whitespace(s[a])
        invariant
            a <= s@.len(),
            forall|j: int| 0 <= j < a ==> is_white_space(s@[j]),
        decreases s@.len() - a,
    {
        a += 1;
    }
    proof {
        lemma_trim_start_skip(s@, a as int);
    }
    let ghost t = s@.skip(a as int);
    assert(trim_start_seq(t) == t);
    let mut b: usize = s.len();
    while b > a && is_whitespace(s[b - 1])
        invariant
            a <= b <= s@.len(),
            forall|j: int| b <= j < s@.len() ==> is_white_space(s@[j]),
        decreases b,
    {
        b -= 1;
    }
    proof {
        lemma_trim_end_take(t, b - a);
        assert(t.take(b - a) == s@.subrange(a as int, b as int));
        let u = s@.subrange(a as int, b as int);
        assert(u.len() == 0 || !is_white_space(u.last()));
    }
    slice_chars(s, a, b)
}

proof fn lemma_trim_start_shape(s: Seq<char>)
    ensures
        trim_start_seq(s).len() <= s.len(),
        trim_start_seq(s) == s.skip(s.len() - trim_start_seq(s).len()),
        trim_start_seq(s).len() > 0 ==> !is_white_space(trim_start_seq(s)[0]),
    decreases s.len(),
{
    if s.len() > 0 && is_white_space(s[0]) {
        lemma_trim_start_shape(s.drop_first());
        let t = trim_start_seq(s.drop_first());
        assert(s.drop_first().skip(s.drop_first().len() - t.len()) == s.skip(s.len() - t.len()));
    } else {
        assert(s.skip(0) == s);
    }
}

proof fn lemma_trim_end_shape(s: Seq<char>)
    ensures
        trim_end_seq(s).len() <= s.len(),
        trim_end_seq(s) == s.take(trim_end_seq(s).len() as int),
        trim_end_seq(s).len() > 0 ==> !is_white_space(trim_end_seq(s).last()),
    decreases s.len(),
{
    if s.len() > 0 && is_white_space(s.last()) {
        lemma_trim_end_shape(s.drop_last());
        let t = trim_end_seq(s.drop_last());
        assert(s.drop_last().take(t.len() as int) == s.take(t.len() as int));
    } else {
        assert(s.take(s.len() as int) == s);
    }
}

/// A text that neither starts nor ends with white space is its own trim.
pub proof fn lemma_trim_of_clean(s: Seq<char>)
    requires
        s.len() == 0 || (!is_white_space(s[0]) && !is_white_space(s.last())),
    ensures
        trim_seq(s) == s,
{
}

/// Trimming twice is trimming once.
pub proof fn lemma_trim_idempotent(s: Seq<char>)
    ensures
        trim_seq(trim_seq(s)) == trim_seq(s),
{
    let t = trim_start_seq(s);
    lemma_trim_start_shape(s);
    lemma_trim_end_shape(t);
    let u = trim_end_seq(t);
    if u.len() > 0 {
        assert(u[0] == t[0]);
    }
    lemma_trim_of_clean(u);
}

/// `s` trimmed, as a new `String`.
pub fn trim_str(s: &str) -> (r: String)
    ensures
        r@ == trim_seq(s@),
{
    let v = chars_of(s);
    let t = trim(&v);
    string_of(&t)
}

// ---------------------------------------------------------------------
// Numerals
// ---------------------------------------------------------------------

/// The decimal digit for `d < 10`.
pub open spec fn digit_char(d: nat) -> char {
    if d == 0 {
        '0'
    } else if d == 1 {
        '1'
    } else if d == 2 {
        '2'
    } else if d == 3 {
        '3'
    } else if d == 4 {
        '4'
    } else if d == 5 {
        '5'
    } else if d == 6 {
        '6'
    } else if d == 7 {
        '7'
    } else if d == 8 {
        '8'
    } else {
        '9'
    }
}

/// Whether `c` is a digit in base `radix` (10 or 16; letters of either
/// case for 16).
pub open spec fn is_radix_digit(c: char, radix: u32) -> bool {
    ('0' <= c && c <= '9') || (radix == 16 && (('a' <= c && c <= 'f') || ('A' <= c && c
        <= 'F')))
}

/// The value of a digit in base 10 or 16.
pub open spec fn radix_digit_value(c: char) -> nat {
    if '0' <= c && c <= '9' {
        (c as u32 - '0' as u32) as nat
    } else if 'a' <= c && c <= 'f' {
        (c as u32 - 'a' as u32 + 10) as nat
    } else {
        (c as u32 - 'A' as u32 + 10) as nat
    }
}

/// The decimal numeral of `n`, without leading zeros (as `Display` for
/// unsigned integers).
pub open spec fn decimal(n: nat) -> Seq<char>
    decreases n,
{
    if n < 10 {
        seq![digit_char(n)]
    } else {
        decimal(n / 10).push(digit_char(n % 10))
    }
}

/// The value of a string of digits in base `radix`.
pub open spec fn digits_value(s: Seq<char>, radix: u32) -> nat
    decreases s.len(),
{
    if s.len() == 0 {
        0
    } else {
        digits_value(s.drop_last(), radix) * (radix as nat) + radix_digit_value(s.last())
    }
}

/// The part of a numeral after an optional leading `+`.
pub open spec fn unsigned_digits(s: Seq<char>) -> Seq<char> {
    if s.len() > 0 && s[0] == '+' {
        s.drop_first()
    } else {
        s
    }
}

/// Every character of `d` is a digit in base `radix`.
pub open spec fn all_digits(d: Seq<char>, radix: u32) -> bool {
    forall|i: int| 0 <= i < d.len() ==> is_radix_digit(#[trigger] d[i], radix)
}

/// The value of an unsigned numeral as std's integer parsing reads it: an
/// optional `+` followed by at least one digit in base `radix`.
pub open spec fn numeral_value(s: Seq<char>, radix: u32) -> Option<nat> {
    let digits = unsigned_digits(s);
    if digits.len() == 0 || !all_digits(digits, radix) {
        None
    } else {
        Some(digits_value(digits, radix))
    }
}

/// What `from_str_radix(s, radix)` gives for an unsigned type whose
/// largest value is `max`: the numeral's value when it fits, else `None`.
pub open spec fn parse_unsigned_seq(s: Seq<char>, radix: u32, max: u32) -> Option<u32> {
    match numeral_value(s, radix) {
        Some(v) => if v <= max {
            Some(v as u32)
        } else {
            None
        },
        None => None,
    }
}

/// What `str::parse::<u32>` gives.
pub open spec fn parse_u32_seq(s: Seq<char>) -> Option<u32> {
    parse_unsigned_seq(s, 10, u32::MAX)
}

/// A character other than a digit after the optional sign makes the
/// numeral unreadable.
proof fn lemma_numeral_non_digit(s: Seq<char>, radix: u32, k: int)
    requires
        0 <= k < unsigned_digits(s).len(),
        !is_radix_digit(unsigned_digits(s)[k], radix),
    ensures
        numeral_value(s, radix) is None,
{
}

/// The decimal numeral of `n`.
pub fn decimal_string(n: u64) -> (r: String)
    ensures
        r@ == decimal(n as nat),
    decreases n,
{
    if n < 10 {
        let mut r = String::new();
        let c = char_from_digit(n as u32);
        push_char(&mut r, c);
        assert(r@ == seq![digit_char(n as nat)]);
        r
    } else {
        let mut r = decimal_string(n / 10);
        let c = char_from_digit((n % 10) as u32);
        push_char(&mut r, c);
        r
    }
}

/// The character for a decimal digit.
fn char_from_digit(d: u32) -> (c: char)
    requires
        d < 10,
    ensures
        c == digit_char(d as nat),
{
    if d == 0 {
        '0'
    } else if d == 1 {
        '1'
    } else if d == 2 {
        '2'
    } else if d == 3 {
        '3'
    } else if d == 4 {
        '4'
    } else if d == 5 {
        '5'
    } else if d == 6 {
        '6'
    } else if d == 7 {
        '7'
    } else if d == 8 {
        '8'
    } else {
        '9'
    }
}

/// The digit value of `c` in base `radix`, if it is a digit there.
fn radix_digit(c: char, radix: u32) -> (r: Option<u32>)
    requires
        radix == 10 || radix == 16,
    ensures
        r is Some <==> is_radix_digit(c, radix),
        r matches Some(d) ==> d == radix_digit_value(c) && d < radix,
{
    if '0' <= c && c <= '9' {
        Some(c as u32 - '0' as u32)
    } else if radix == 16 && 'a' <= c && c <= 'f' {
        Some(c as u32 - 'a' as u32 + 10)
    } else if radix == 16 && 'A' <= c && c <= 'F' {
        Some(c as u32 - 'A' as u32 + 10)
    } else {
        None
    }
}

/// Reads an unsigned numeral in base 10 or 16 as std's `from_str_radix`
/// does for a type whose largest value is `max`: `None` where std returns
/// an error.
pub fn parse_unsigned(s: &Vec<char>, radix: u32, max: u32) -> (r: Option<u32>)
    requires
        radix == 10 || radix == 16,
    ensures
        r == parse_unsigned_seq(s@, radix, max),
{
    let ghost digits = unsigned_digits(s@);
    let start: usize = if s.len() > 0 && s[0] == '+' {
        1
    } else {
        0
    };
    assert(digits == s@.skip(start as int));
    if start == s.len() {
        return None;
    }
    let mut value: u64 = 0;
    let mut too_big = false;
    let mut i: usize = start;
    while i < s.len()
        invariant
            radix == 10 || radix == 16,
            start <= i <= s@.len(),
            digits == s@.skip(start as int),
            digits == unsigned_digits(s@),
            forall|j: int| start <= j < i ==> is_radix_digit(s@[j], radix),
            !too_big ==> value == digits_value(s@.subrange(start as int, i as int), radix),
            too_big ==> digits_value(s@.subrange(start as int, i as int), radix) > max,
            value <= max,
        decreases s@.len() - i,
    {
        let c = s[i];
        let d = match radix_digit(c, radix) {
            Some(d) => d,
            None => {
                assert(digits[i - start] == s@[i as int]);
                proof {
                    lemma_numeral_non_digit(s@, radix, (i - start) as int);
                }
                return None;
            },
        };
        let ghost prev = s@.subrange(start as int, i as int);
        assert(s@.subrange(start as int, i + 1).drop_last() == prev);
        if !too_big {
            let next = value * (radix as u64) + (d as u64);
            if next > max as u64 {
                too_big = true;
                value = 0;
            } else {
                value = next;
            }
        } else {
            assert(digits_value(s@.subrange(start as int, i + 1), radix) >= digits_value(
                prev,
                radix,
            )) by (nonlinear_arith)
                requires
                    digits_value(s@.subrange(start as int, i + 1), radix) == digits_value(
                        prev,
                        radix,
                    ) * radix + radix_digit_value(s@[i as int]),
                    radix >= 10,
            ;
        }
        i += 1;
    }
    assert(s@.subrange(start as int, s@.len() as int) == digits);
    assert forall|j: int| 0 <= j < digits.len() implies is_radix_digit(#[trigger] digits[j], radix) by {
        assert(digits[j] == s@[start + j]);
    }
    if too_big {
        None
    } else {
        Some(value as u32)
    }
}

/// Reads a decimal `u32` as `str::parse::<u32>` does.
pub fn parse_u32(s: &Vec<char>) -> (r: Option<u32>)
    ensures
        r == parse_u32_seq(s@),
{
    parse_unsigned(s, 10, 0xFFFF_FFFF)
}

// ---------------------------------------------------------------------
// UTF-8 byte positions
// ---------------------------------------------------------------------

/// The number of bytes UTF-8 uses for `c`.
pub open spec fn utf8_width(c: char) -> nat {
    let n = c as u32;
    if n < 0x80 {
        1
    } else if n < 0x800 {
        2
    } else if n < 0x10000 {
        3
    } else {
        4
    }
}

/// The number of bytes of the UTF-8 encoding of `s` (what `str::len`
/// counts).
pub open spec fn utf8_len(s: Seq<char>) -> nat
    decreases s.len(),
{
    if s.len() == 0 {
        0
    } else {
        utf8_len(s.drop_last()) + utf8_width(s.last())
    }
}

/// Byte offset `n` of the UTF-8 encoding of `s` falls between two
/// characters (what `str::is_char_boundary` checks, for `n` up to the
/// length).
pub open spec fn is_byte_boundary(s: Seq<char>, n: nat) -> bool {
    exists|k: int| 0 <= k <= s.len() && #[trigger] utf8_len(s.take(k)) == n
}

/// The number of characters before byte offset `n`, for a boundary `n`.
pub open spec fn chars_before_byte(s: Seq<char>, n: nat) -> nat {
    (choose|k: int| 0 <= k <= s.len() && #[trigger] utf8_len(s.take(k)) == n) as nat
}

/// Longer prefixes take strictly more bytes.
pub proof fn lemma_utf8_len_increasing(s: Seq<char>, i: int, j: int)
    requires
        0 <= i < j <= s.len(),
    ensures
        utf8_len(s.take(i)) < utf8_len(s.take(j)),
    decreases j - i,
{
    assert(s.take(j).drop_last() == s.take(j - 1));
    if i < j - 1 {
        lemma_utf8_len_increasing(s, i, j - 1);
    }
}

/// The byte width of one character.
pub fn char_width(c: char) -> (w: usize)
    ensures
        w == utf8_width(c),
{
    let n = c as u32;
    if n < 0x80 {
        1
    } else if n < 0x800 {
        2
    } else if n < 0x10000 {
        3
    } else {
        4
    }
}

/// Walks the UTF-8 encoding of `s` up to byte `n`: whether the encoding
/// is at least `n` bytes long, and the number of characters before byte
/// `n` when it is a boundary.
pub fn scan_bytes(s: &Vec<char>, n: usize) -> (r: (bool, Option<usize>))
    requires
        n <= 1_000_000,
    ensures
        r.0 == (utf8_len(s@) >= n),
        match r.1 {
            Some(k) => is_byte_boundary(s@, n as nat) && k == chars_before_byte(s@, n as nat),
            None => !is_byte_boundary(s@, n as nat),
        },
{
    let mut acc: usize = 0;
    let mut k: usize = 0;
    while k < s.len() && acc < n
        invariant
            n <= 1_000_000,
            k <= s@.len(),
            acc == utf8_len(s@.take(k as int)),
            k > 0 ==> utf8_len(s@.take(k - 1)) < n,
        decreases s@.len() - k,
    {
        assert(s@.take(k + 1).drop_last() == s@.take(k as int));
        acc = acc + char_width(s[k]);
        k += 1;
    }
    let reached = acc >= n;
    proof {
        assert(s@.take(s@.len() as int) == s@);
        if k < s@.len() {
            lemma_utf8_len_increasing(s@, k as int, s@.len() as int);
        }
    }
    if acc == n {
        proof {
            let w = choose|j: int| 0 <= j <= s@.len() && #[trigger] utf8_len(s@.take(j)) == n;
            assert(utf8_len(s@.take(k as int)) == n);
            if w < k {
                lemma_utf8_len_increasing(s@, w, k as int);
            } else if w > k {
                lemma_utf8_len_increasing(s@, k as int, w);
            }
        }
        (reached, Some(k))
    } else {
        proof {
            assert forall|j: int| 0 <= j <= s@.len() implies #[trigger] utf8_len(s@.take(j))
                != n by {
                if j < k {
                    if j < k - 1 {
                        lemma_utf8_len_increasing(s@, j, k - 1);
                    }
                } else if j > k {
                    lemma_utf8_len_increasing(s@, k as int, j);
                }
            }
        }
        (reached, None)
    }
}

// ---------------------------------------------------------------------
// Laws of numerals
// ---------------------------------------------------------------------

proof fn lemma_digit_char(d: nat)
    requires
        d < 10,
    ensures
        is_radix_digit(digit_char(d), 10),
        radix_digit_value(digit_char(d)) == d,
        digit_char(d) != '+',
{
}

proof fn lemma_decimal_digits(n: nat)
    ensures
        decimal(n).len() > 0,
        all_digits(decimal(n), 10),
        digits_value(decimal(n), 10) == n,
        decimal(n)[0] != '+',
    decreases n,
{
    if n < 10 {
        lemma_digit_char(n);
        assert(decimal(n) == seq![digit_char(n)]);
        assert(seq![digit_char(n)].drop_last() =~= Seq::<char>::empty());
        assert(digits_value(Seq::<char>::empty(), 10) == 0);
        assert(digits_value(decimal(n), 10) == digits_value(Seq::<char>::empty(), 10) * 10
            + radix_digit_value(digit_char(n)));
    } else {
        lemma_decimal_digits(n / 10);
        lemma_digit_char(n % 10);
        let p = decimal(n / 10);
        assert(decimal(n).drop_last() == p);
        assert(decimal(n)[0] == p[0]);
        assert forall|i: int| 0 <= i < decimal(n).len() implies is_radix_digit(
            #[trigger] decimal(n)[i],
            10,
        ) by {
            if i < p.len() {
                assert(decimal(n)[i] == p[i]);
            }
        }
        assert(decimal(n).last() == digit_char(n % 10));
        assert(digits_value(decimal(n), 10) == digits_value(p, 10) * 10 + radix_digit_value(
            digit_char(n % 10),
        ));
        assert(n == (n / 10) * 10 + n % 10);
    }
}

/// Reading back the decimal numeral of a `u32` gives the number: what
/// `decimal_string` writes, `parse_u32` reads.
pub proof fn lemma_parse_decimal(n: u32)
    ensures
        parse_u32_seq(decimal(n as nat)) == Some(n),
{
    lemma_decimal_digits(n as nat);
    assert(unsigned_digits(decimal(n as nat)) == decimal(n as nat));
}

/// Different numbers have different decimal numerals.
pub proof fn lemma_decimal_injective(a: nat, b: nat)
    ensures
        decimal(a) == decimal(b) ==> a == b,
{
    lemma_decimal_digits(a);
    lemma_decimal_digits(b);
}

} // verus!
