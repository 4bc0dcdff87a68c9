//! List numbering: the templates of `word/numbering.xml` and the prefixes
//! (`•`, `1.`, `a)`, `iv.`, `1.2.`) they give list items.

use vstd::prelude::*;
use crate::error::AppError;
use crate::text::{
    chars_of, dec, parse_u32, parse_u32_spec, push_char, push_dec, push_str, same_text,
};
use crate::xml_events::{
    attr_lookup, attr_val, local_name, local_of, read_all_events, xml_events, PosEvent,
    XmlEvent, XmlTag,
};
use vstd::string::StringExecFns;

verus! {

/// The numbering template of one list level.
pub struct LvlTemplate {
    /// Number format: `bullet`, `decimal`, `lowerLetter`, `upperRoman`, ...
    pub num_fmt: String,
    /// Level text: `•`, `%1.`, `%1.%2.`, `%1)`, ... where `%N` stands for
    /// the counter of level N (1-based).
    pub lvl_text: String,
}

impl View for LvlTemplate {
    type V = (Seq<char>, Seq<char>);

    open spec fn view(&self) -> (Seq<char>, Seq<char>) {
        (self.num_fmt@, self.lvl_text@)
    }
}

/// Private-use Wingdings/Symbol bullet characters mapped to Unicode ones.
pub open spec fn remap_char(c: char) -> char {
    if c == '\u{F0B7}' {
        '•'
    } else if c == '\u{F0A7}' {
        '▪'
    } else if c == '\u{F076}' {
        '✓'
    } else if c == '\u{F0FC}' {
        '✗'
    } else if c == '\u{F0D8}' {
        '◆'
    } else if c == '\u{F0A8}' {
        '▫'
    } else {
        c
    }
}

/// `s` with Wingdings bullet characters replaced by their Unicode look-alikes.
pub fn remap_wingdings(s: &str) -> (r: String)
    ensures
        r@ == s@.map_values(|c: char| remap_char(c)),
{
    let v = chars_of(s);
    let mut out = String::new();
    let mut i: usize = 0;
    while i < v.len()
        invariant
            v@ == s@,
            i <= v@.len(),
            out@ == v@.take(i as int).map_values(|c: char| remap_char(c)),
        decreases v@.len() - i,
    {
        let c = v[i];
        let m = if c == '\u{F0B7}' {
            '•'
        } else if c == '\u{F0A7}' {
            '▪'
        } else if c == '\u{F076}' {
            '✓'
        } else if c == '\u{F0FC}' {
            '✗'
        } else if c == '\u{F0D8}' {
            '◆'
        } else if c == '\u{F0A8}' {
            '▫'
        } else {
            c
        };
        push_char(&mut out, m);
        i += 1;
        assert(v@.take(i as int).map_values(|c: char| remap_char(c)) =~= v@.take(
            (i - 1) as int,
        ).map_values(|c: char| remap_char(c)).push(remap_char(c)));
    }
    assert(v@.take(v@.len() as int) == v@);
    out
}

/// The letter for `k < 26`: `a`..`z`, or `A`..`Z` when `upper`.
pub open spec fn letter_char(k: nat, upper: bool) -> char {
    (((if upper { 65nat } else { 97nat }) + k) as u8) as char
}

/// Spreadsheet-column letters: 1 = `a`, 26 = `z`, 27 = `aa`; 0 = nothing.
pub open spec fn letters(n: nat, upper: bool) -> Seq<char>
    decreases n,
{
    if n == 0 {
        Seq::empty()
    } else {
        letters(((n - 1) as nat / 26) as nat, upper).push(letter_char(((n - 1) as nat % 26) as nat, upper))
    }
}

fn push_letters(s: &mut String, n: u32, upper: bool)
    ensures
        final(s)@ == old(s)@ + letters(n as nat, upper),
    decreases n,
{
    if n == 0 {
        assert(old(s)@ + letters(0, upper) =~= old(s)@);
        return;
    }
    let x = n - 1;
    push_letters(s, x / 26, upper);
    let k: u8 = (x % 26) as u8;
    let base: u8 = if upper { 65 } else { 97 };
    push_char(s, (base + k) as char);
    assert(s@ =~= old(s)@ + letters(n as nat, upper));
}

/// The counter `n` written in letters (`a`, `b`, ..., `z`, `aa`, ...).
pub fn letter_format(n: u32, upper: bool) -> (r: String)
    ensures
        r@ == letters(n as nat, upper),
{
    let mut s = String::new();
    push_letters(&mut s, n, upper);
    assert(s@ =~= letters(n as nat, upper));
    s
}

/// Values of the Roman numeral table, largest first.
pub open spec fn roman_val(i: nat) -> nat {
    if i == 0 { 1000 }
    else if i == 1 { 900 }
    else if i == 2 { 500 }
    else if i == 3 { 400 }
    else if i == 4 { 100 }
    else if i == 5 { 90 }
    else if i == 6 { 50 }
    else if i == 7 { 40 }
    else if i == 8 { 10 }
    else if i == 9 { 9 }
    else if i == 10 { 5 }
    else if i == 11 { 4 }
    else { 1 }
}

/// Lower-case symbols of the Roman numeral table.
pub open spec fn roman_sym_lower(i: nat) -> Seq<char> {
    if i == 0 { seq!['m'] }
    else if i == 1 { seq!['c', 'm'] }
    else if i == 2 { seq!['d'] }
    else if i == 3 { seq!['c', 'd'] }
    else if i == 4 { seq!['c'] }
    else if i == 5 { seq!['x', 'c'] }
    else if i == 6 { seq!['l'] }
    else if i == 7 { seq!['x', 'l'] }
    else if i == 8 { seq!['x'] }
    else if i == 9 { seq!['i', 'x'] }
    else if i == 10 { seq!['v'] }
    else if i == 11 { seq!['i', 'v'] }
    else { seq!['i'] }
}

/// ASCII upper case of a character.
pub open spec fn ascii_upper(c: char) -> char {
    if 'a' <= c && c <= 'z' { ((c as u32 - 32) as u8) as char } else { c }
}

/// Symbol `i` of the table, in upper case when `upper`.
pub open spec fn roman_sym(i: nat, upper: bool) -> Seq<char> {
    if upper {
        roman_sym_lower(i).map_values(|c: char| ascii_upper(c))
    } else {
        roman_sym_lower(i)
    }
}

/// Greedy Roman numeral of `x` using table entries `i..13`.
pub open spec fn roman_from(x: nat, i: nat, upper: bool) -> Seq<char>
    decreases 13 - i, x,
{
    if i >= 13 {
        Seq::empty()
    } else if x >= roman_val(i) {
        roman_sym(i, upper) + roman_from((x - roman_val(i)) as nat, i, upper)
    } else {
        roman_from(x, i + 1, upper)
    }
}

fn roman_entry(i: usize, upper: bool) -> (r: (u32, &'static str))
    requires
        i < 13,
    ensures
        r.0 == roman_val(i as nat),
        r.1@ == roman_sym(i as nat, upper),
{
    proof {
        reveal_strlit("m"); reveal_strlit("cm"); reveal_strlit("d"); reveal_strlit("cd");
        reveal_strlit("c"); reveal_strlit("xc"); reveal_strlit("l"); reveal_strlit("xl");
        reveal_strlit("x"); reveal_strlit("ix"); reveal_strlit("v"); reveal_strlit("iv");
        reveal_strlit("i");
        reveal_strlit("M"); reveal_strlit("CM"); reveal_strlit("D"); reveal_strlit("CD");
        reveal_strlit("C"); reveal_strlit("XC"); reveal_strlit("L"); reveal_strlit("XL");
        reveal_strlit("X"); reveal_strlit("IX"); reveal_strlit("V"); reveal_strlit("IV");
        reveal_strlit("I");
    }
    let r = if upper {
        match i {
            0 => (1000, "M"), 1 => (900, "CM"), 2 => (500, "D"), 3 => (400, "CD"),
            4 => (100, "C"), 5 => (90, "XC"), 6 => (50, "L"), 7 => (40, "XL"),
            8 => (10, "X"), 9 => (9, "IX"), 10 => (5, "V"), 11 => (4, "IV"), _ => (1, "I"),
        }
    } else {
        match i {
            0 => (1000, "m"), 1 => (900, "cm"), 2 => (500, "d"), 3 => (400, "cd"),
            4 => (100, "c"), 5 => (90, "xc"), 6 => (50, "l"), 7 => (40, "xl"),
            8 => (10, "x"), 9 => (9, "ix"), 10 => (5, "v"), 11 => (4, "iv"), _ => (1, "i"),
        }
    };
    assert(r.1@ =~= roman_sym(i as nat, upper));
    r
}

/// The value of one Roman numeral symbol, in either case (0 for another
/// character).
pub open spec fn roman_digit(c: char) -> nat {
    if c == 'i' || c == 'I' { 1 }
    else if c == 'v' || c == 'V' { 5 }
    else if c == 'x' || c == 'X' { 10 }
    else if c == 'l' || c == 'L' { 50 }
    else if c == 'c' || c == 'C' { 100 }
    else if c == 'd' || c == 'D' { 500 }
    else if c == 'm' || c == 'M' { 1000 }
    else { 0 }
}

/// The number a Roman numeral reads as: the sum of its symbols' values,
/// where a symbol followed by a larger one counts as the difference of
/// the two.
pub open spec fn roman_value(s: Seq<char>) -> int
    decreases s.len(),
{
    if s.len() == 0 {
        0
    } else if s.len() >= 2 && roman_digit(s[0]) < roman_digit(s[1]) {
        roman_digit(s[1]) - roman_digit(s[0]) + roman_value(s.skip(2))
    } else {
        roman_digit(s[0]) + roman_value(s.drop_first())
    }
}

/// Each table symbol reads as its value, and its first character is worth
/// no more than the value of any symbol before it in the table whose text
/// is one character.
proof fn lemma_roman_sym_facts(i: nat, upper: bool)
    requires
        i < 13,
    ensures
        roman_sym(i, upper).len() == 1 || roman_sym(i, upper).len() == 2,
        roman_sym(i, upper).len() == 1 ==> roman_digit(roman_sym(i, upper)[0]) == roman_val(i),
        roman_sym(i, upper).len() == 2 ==> roman_digit(roman_sym(i, upper)[0]) < roman_digit(roman_sym(i, upper)[1])
            && roman_digit(roman_sym(i, upper)[1]) - roman_digit(roman_sym(i, upper)[0]) == roman_val(i),
        forall|h: nat| h <= i && roman_sym(h, upper).len() == 1 ==> roman_digit(roman_sym(i, upper)[0]) <= roman_val(h),
{
    assert forall|h: nat| h <= i && roman_sym(h, upper).len() == 1 implies roman_digit(roman_sym(i, upper)[0])
        <= roman_val(h) by {
        assert(roman_sym(h, upper).len() == roman_sym_lower(h).len());
    }
}

/// A numeral made by the table from entry `i` on starts with the first
/// character of an entry at `i` or after, or is empty.
proof fn lemma_roman_first(x: nat, i: nat, upper: bool)
    ensures
        roman_from(x, i, upper).len() == 0 || exists|j: nat|
            i <= j < 13 && roman_from(x, i, upper)[0] == #[trigger] roman_sym(j, upper)[0],
    decreases 13 - i, x,
{
    if i < 13 {
        if x >= roman_val(i) {
            lemma_roman_sym_facts(i, upper);
            assert((roman_sym(i, upper) + roman_from((x - roman_val(i)) as nat, i, upper))[0] == roman_sym(i, upper)[0]);
        } else {
            lemma_roman_first(x, i + 1, upper);
        }
    }
}

/// A symbol followed by a numeral whose first character is worth no more
/// than a one-character symbol reads as the symbol's value plus the rest.
proof fn lemma_roman_value_cons(sym: Seq<char>, rest: Seq<char>, v: nat)
    requires
        sym.len() == 1 || sym.len() == 2,
        sym.len() == 1 ==> roman_digit(sym[0]) == v && (rest.len() > 0 ==> roman_digit(rest[0]) <= v),
        sym.len() == 2 ==> roman_digit(sym[0]) < roman_digit(sym[1]) && roman_digit(sym[1]) - roman_digit(sym[0]) == v,
    ensures
        roman_value(sym + rest) == v + roman_value(rest),
{
    let w = sym + rest;
    if sym.len() == 1 {
        assert(w[0] == sym[0]);
        if w.len() >= 2 {
            assert(w[1] == rest[0]);
        }
        assert(w.drop_first() =~= rest);
    } else {
        assert(w[0] == sym[0] && w[1] == sym[1]);
        assert(w.skip(2) =~= rest);
    }
}

/// The numeral the table makes for `x` from entry `i` (at most the last)
/// on reads back as `x`.
proof fn lemma_roman_from_value(x: nat, i: nat, upper: bool)
    requires
        i <= 12,
    ensures
        roman_value(roman_from(x, i, upper)) == x,
    decreases 13 - i, x,
{
    if x >= roman_val(i) {
        let y = (x - roman_val(i)) as nat;
        lemma_roman_from_value(y, i, upper);
        lemma_roman_sym_facts(i, upper);
        let rest = roman_from(y, i, upper);
        lemma_roman_first(y, i, upper);
        if rest.len() > 0 {
            let j = choose|j: nat| i <= j < 13 && rest[0] == #[trigger] roman_sym(j, upper)[0];
            lemma_roman_sym_facts(j, upper);
        }
        lemma_roman_value_cons(roman_sym(i, upper), rest, roman_val(i));
    } else if i == 12 {
        assert(x == 0);
        assert(roman_from(x, 13, upper) == Seq::<char>::empty());
    } else {
        lemma_roman_from_value(x, i + 1, upper);
    }
}

/// The Roman numeral written for a counter reads back as the counter, in
/// either case (4 gives `iv`, read as 5 - 1).
pub proof fn lemma_roman_reads_back(n: nat, upper: bool)
    ensures
        roman_value(roman_from(n, 0, upper)) == n,
{
    lemma_roman_from_value(n, 0, upper);
}

/// The counter `n` as a Roman numeral (`i`, `ii`, `iv`, ...; `I`, `II`, ...
/// when `upper`); 0 gives the empty string.
pub fn roman_format(n: u32, upper: bool) -> (r: String)
    ensures
        r@ == roman_from(n as nat, 0, upper),
{
    let mut s = String::new();
    let mut x: u32 = n;
    let mut i: usize = 0;
    while i < 13
        invariant
            i <= 13,
            s@ + roman_from(x as nat, i as nat, upper) == roman_from(n as nat, 0, upper),
        decreases 13 - i, x,
    {
        let (val, sym) = roman_entry(i, upper);
        if x >= val {
            let ghost before = s@;
            push_str(&mut s, sym);
            assert(before + roman_from(x as nat, i as nat, upper) == before + (roman_sym(i as nat, upper)
                + roman_from((x - val) as nat, i as nat, upper)));
            assert(before + (roman_sym(i as nat, upper) + roman_from((x - val) as nat, i as nat, upper))
                =~= s@ + roman_from((x - val) as nat, i as nat, upper));
            x = x - val;
        } else {
            i += 1;
        }
    }
    assert(s@ + roman_from(x as nat, 13, upper) =~= s@);
    s
}

/// A counter written in the number format `fmt`.
pub open spec fn fmt_number(n: nat, fmt: Seq<char>) -> Seq<char> {
    if fmt == "decimal"@ {
        dec(n)
    } else if fmt == "decimalZero"@ {
        if n < 10 { seq!['0'] + dec(n) } else { dec(n) }
    } else if fmt == "lowerLetter"@ {
        letters(n, false)
    } else if fmt == "upperLetter"@ {
        letters(n, true)
    } else if fmt == "lowerRoman"@ {
        roman_from(n, 0, false)
    } else if fmt == "upperRoman"@ {
        roman_from(n, 0, true)
    } else if fmt == "none"@ {
        Seq::empty()
    } else {
        dec(n)
    }
}

/// Writes the counter `n` in the number format `fmt`.
pub fn format_number(n: u32, fmt: &str) -> (r: String)
    ensures
        r@ == fmt_number(n as nat, fmt@),
{
    let mut s = String::new();
    if same_text(fmt, "decimal") {
        push_dec(&mut s, n as u64);
    } else if same_text(fmt, "decimalZero") {
        if n < 10 {
            push_char(&mut s, '0');
        }
        push_dec(&mut s, n as u64);
    } else if same_text(fmt, "lowerLetter") {
        return letter_format(n, false);
    } else if same_text(fmt, "upperLetter") {
        return letter_format(n, true);
    } else if same_text(fmt, "lowerRoman") {
        return roman_format(n, false);
    } else if same_text(fmt, "upperRoman") {
        return roman_format(n, true);
    } else if same_text(fmt, "none") {
    } else {
        push_dec(&mut s, n as u64);
    }
    assert(s@ =~= fmt_number(n as nat, fmt@));
    s
}


/// The counter of a 0-based level; 1 for a level without a counter.
pub open spec fn counter_at(counters: Seq<u32>, level: nat) -> nat {
    if level < counters.len() { counters[level as int] as nat } else { 1 }
}

/// A level text with each `%N` replaced by the counter of level N written
/// in the number format `fmt`.
pub open spec fn expand_level_text(t: Seq<char>, counters: Seq<u32>, fmt: Seq<char>) -> Seq<char>
    decreases t.len(),
{
    if t.len() == 0 {
        Seq::empty()
    } else if t[0] == '%' && t.len() >= 2 && '0' <= t[1] && t[1] <= '9' {
        let d = (t[1] as u32 - 48) as nat;
        let level = if d >= 1 { (d - 1) as nat } else { 0 };
        fmt_number(counter_at(counters, level), fmt) + expand_level_text(t.skip(2), counters, fmt)
    } else {
        seq![t[0]] + expand_level_text(t.drop_first(), counters, fmt)
    }
}

/// The prefix a template gives a list item with the given counters.
pub open spec fn template_prefix(tpl: (Seq<char>, Seq<char>), counters: Seq<u32>) -> Seq<char> {
    if tpl.0 == "bullet"@ {
        tpl.1.map_values(|c: char| remap_char(c))
    } else {
        expand_level_text(tpl.1, counters, tpl.0)
    }
}

impl LvlTemplate {
    /// The prefix of a list item: for bullets the level text itself (with
    /// Wingdings bullets remapped), otherwise the level text with every
    /// `%N` replaced by the counter of level N (1 when there is none),
    /// written in the number format. `counters` are the 1-based ordinals
    /// per level, `ilvl` is the item's level.
    pub fn render(&self, counters: &[u32], ilvl: usize) -> (r: String)
        ensures
            r@ == template_prefix(self@, counters@),
    {
        if same_text(self.num_fmt.as_str(), "bullet") {
            return remap_wingdings(self.lvl_text.as_str());
        }
        let v = chars_of(self.lvl_text.as_str());
        let mut out = String::new();
        let mut i: usize = 0;
        let ghost fmt = self.num_fmt@;
        assert(v@.skip(0) == v@);
        while i < v.len()
            invariant
                v@ == self.lvl_text@,
                fmt == self.num_fmt@,
                i <= v@.len(),
                out@ + expand_level_text(v@.skip(i as int), counters@, fmt) == expand_level_text(
                    v@,
                    counters@,
                    fmt,
                ),
            decreases v@.len() - i,
        {
            let c = v[i];
            let ghost rest = v@.skip(i as int);
            assert(rest[0] == c);
            if c == '%' && i + 1 < v.len() && '0' <= v[i + 1] && v[i + 1] <= '9' {
                let d = v[i + 1];
                assert(rest[1] == d);
                let dv: usize = ((d as u32) - 48) as usize;
                let level: usize = if dv >= 1 { dv - 1 } else { 0 };
                let n: u32 = if level < counters.len() { counters[level] } else { 1 };
                let fmt_name = self.num_fmt_for_level(level, ilvl);
                let part = format_number(n, fmt_name.as_str());
                let ghost before = out@;
                push_str(&mut out, part.as_str());
                assert(rest.skip(2) == v@.skip(i + 2));
                assert(before + expand_level_text(rest, counters@, fmt) =~= out@ + expand_level_text(
                    v@.skip(i + 2),
                    counters@,
                    fmt,
                ));
                i += 2;
            } else {
                let ghost before = out@;
                push_char(&mut out, c);
                assert(rest.drop_first() == v@.skip(i + 1));
                assert(before + expand_level_text(rest, counters@, fmt) =~= out@ + expand_level_text(
                    v@.skip(i + 1),
                    counters@,
                    fmt,
                ));
                i += 1;
            }
        }
        assert(out@ + expand_level_text(v@.skip(i as int), counters@, fmt) =~= out@);
        out
    }

    /// The number format used for `%N` placeholders: the template's own,
    /// whatever the level.
    fn num_fmt_for_level(&self, _level: usize, _current_ilvl: usize) -> (r: String)
        ensures
            r@ == self.num_fmt@,
    {
        self.num_fmt.clone()
    }
}


/// Numbering definitions: which abstract numbering each numbering instance
/// uses, and the templates of the levels of each abstract numbering. Later
/// entries override earlier ones with the same key.
pub struct NumberingMap {
    /// `(numId, abstractNumId)`.
    pub num_to_abstract: Vec<(u32, u32)>,
    /// `(abstractNumId, ilvl, template)`.
    pub levels: Vec<(u32, u32, LvlTemplate)>,
}

/// Association list of numbering instances, later entries winning.
pub open spec fn n2a_map(v: Seq<(u32, u32)>) -> Map<u32, u32>
    decreases v.len(),
{
    if v.len() == 0 {
        Map::empty()
    } else {
        n2a_map(v.drop_last()).insert(v.last().0, v.last().1)
    }
}

/// Association list of level templates, later entries winning.
pub open spec fn levels_map(v: Seq<(u32, u32, LvlTemplate)>) -> Map<(u32, u32), (Seq<char>, Seq<char>)>
    decreases v.len(),
{
    if v.len() == 0 {
        Map::empty()
    } else {
        levels_map(v.drop_last()).insert((v.last().0, v.last().1), v.last().2@)
    }
}

/// The template of `(numId, ilvl)`: the level `ilvl` of the abstract
/// numbering that numbering instance `numId` uses.
pub open spec fn merged(
    n2a: Map<u32, u32>,
    levels: Map<(u32, u32), (Seq<char>, Seq<char>)>,
) -> Map<(u32, u32), (Seq<char>, Seq<char>)> {
    Map::new(
        |k: (u32, u32)| n2a.contains_key(k.0) && levels.contains_key((n2a[k.0], k.1)),
        |k: (u32, u32)| levels[(n2a[k.0], k.1)],
    )
}

impl View for NumberingMap {
    type V = Map<(u32, u32), (Seq<char>, Seq<char>)>;

    open spec fn view(&self) -> Map<(u32, u32), (Seq<char>, Seq<char>)> {
        merged(n2a_map(self.num_to_abstract@), levels_map(self.levels@))
    }
}

/// The abstract numbering of `num_id` in `v[..end]`, the last entry winning.
fn n2a_get(v: &Vec<(u32, u32)>, num_id: u32, end: usize) -> (r: Option<u32>)
    requires
        end <= v@.len(),
    ensures
        r is Some <==> n2a_map(v@.take(end as int)).contains_key(num_id),
        r is Some ==> r->0 == n2a_map(v@.take(end as int))[num_id],
    decreases end,
{
    if end == 0 {
        return None;
    }
    assert(v@.take(end as int).drop_last() == v@.take(end - 1));
    if v[end - 1].0 == num_id {
        Some(v[end - 1].1)
    } else {
        n2a_get(v, num_id, end - 1)
    }
}

/// The template of `(aid, ilvl)` in `v[..end]`, the last entry winning.
fn levels_get(v: &Vec<(u32, u32, LvlTemplate)>, aid: u32, ilvl: u32, end: usize) -> (r: Option<&LvlTemplate>)
    requires
        end <= v@.len(),
    ensures
        r is Some <==> levels_map(v@.take(end as int)).contains_key((aid, ilvl)),
        r is Some ==> r->0@ == levels_map(v@.take(end as int))[(aid, ilvl)],
    decreases end,
{
    if end == 0 {
        return None;
    }
    assert(v@.take(end as int).drop_last() == v@.take(end - 1));
    if v[end - 1].0 == aid && v[end - 1].1 == ilvl {
        Some(&v[end - 1].2)
    } else {
        levels_get(v, aid, ilvl, end - 1)
    }
}

impl NumberingMap {
    /// No numbering definitions.
    pub fn new() -> (m: NumberingMap)
        ensures
            m@ == Map::<(u32, u32), (Seq<char>, Seq<char>)>::empty(),
            m.num_to_abstract@.len() == 0,
            m.levels@.len() == 0,
    {
        let m = NumberingMap { num_to_abstract: Vec::new(), levels: Vec::new() };
        assert(m@ =~= Map::<(u32, u32), (Seq<char>, Seq<char>)>::empty());
        m
    }

    /// The template of level `ilvl` of numbering instance `num_id`.
    pub fn get(&self, num_id: u32, ilvl: u32) -> (r: Option<&LvlTemplate>)
        ensures
            r is Some <==> self@.contains_key((num_id, ilvl)),
            r is Some ==> r->0@ == self@[(num_id, ilvl)],
    {
        assert(self.num_to_abstract@.take(self.num_to_abstract@.len() as int)
            == self.num_to_abstract@);
        assert(self.levels@.take(self.levels@.len() as int) == self.levels@);
        match n2a_get(&self.num_to_abstract, num_id, self.num_to_abstract.len()) {
            Some(aid) => levels_get(&self.levels, aid, ilvl, self.levels.len()),
            None => None,
        }
    }
}

/// State of the scan of `numbering.xml`.
pub struct NumScan {
    pub in_abstract: Option<u32>,
    pub in_num: Option<u32>,
    pub cur_lvl: Option<u32>,
    pub cur_fmt: Option<Seq<char>>,
    pub cur_text: Option<Seq<char>>,
    pub n2a: Map<u32, u32>,
    pub levels: Map<(u32, u32), (Seq<char>, Seq<char>)>,
}

/// The numeric value of an attribute, when present and a valid `u32`.
pub open spec fn attr_u32(t: XmlTag, key: Seq<char>) -> Option<u32> {
    match attr_lookup(t.attrs@, key) {
        Some(v) => parse_u32_spec(v),
        None => None,
    }
}

/// Effect of a start or empty tag on the scan.
pub open spec fn num_tag(st: NumScan, t: XmlTag) -> NumScan {
    let local = local_of(t.name@);
    if local == "abstractNum"@ {
        match attr_u32(t, "w:abstractNumId"@) {
            Some(id) => NumScan { in_abstract: Some(id), ..st },
            None => st,
        }
    } else if local == "num"@ {
        match attr_u32(t, "w:numId"@) {
            Some(id) => NumScan { in_num: Some(id), ..st },
            None => st,
        }
    } else if local == "abstractNumId"@ && st.in_num is Some {
        match attr_u32(t, "w:val"@) {
            Some(aid) => NumScan { n2a: st.n2a.insert(st.in_num->0, aid), ..st },
            None => st,
        }
    } else if local == "lvl"@ && st.in_abstract is Some {
        match attr_lookup(t.attrs@, "w:ilvl"@) {
            Some(v) => NumScan { cur_lvl: parse_u32_spec(v), cur_fmt: None, cur_text: None, ..st },
            None => st,
        }
    } else if local == "numFmt"@ && st.cur_lvl is Some {
        match attr_lookup(t.attrs@, "w:val"@) {
            Some(v) => NumScan { cur_fmt: Some(v), ..st },
            None => st,
        }
    } else if local == "lvlText"@ && st.cur_lvl is Some {
        match attr_lookup(t.attrs@, "w:val"@) {
            Some(v) => NumScan { cur_text: Some(v), ..st },
            None => st,
        }
    } else {
        st
    }
}

/// Effect of an end tag on the scan.
pub open spec fn num_end(st: NumScan, name: Seq<char>) -> NumScan {
    let local = local_of(name);
    if local == "lvl"@ {
        if st.in_abstract is Some && st.cur_lvl is Some {
            let tpl = (
                if st.cur_fmt is Some { st.cur_fmt->0 } else { "decimal"@ },
                if st.cur_text is Some { st.cur_text->0 } else { "%1."@ },
            );
            NumScan {
                levels: st.levels.insert((st.in_abstract->0, st.cur_lvl->0), tpl),
                cur_fmt: None,
                cur_text: None,
                cur_lvl: None,
                ..st
            }
        } else {
            NumScan { cur_lvl: None, ..st }
        }
    } else if local == "abstractNum"@ {
        NumScan { in_abstract: None, ..st }
    } else if local == "num"@ {
        NumScan { in_num: None, ..st }
    } else {
        st
    }
}

/// Effect of one event on the scan.
pub open spec fn num_step(st: NumScan, ev: XmlEvent) -> NumScan {
    match ev {
        XmlEvent::Start(t) => num_tag(st, t),
        XmlEvent::Empty(t) => num_tag(st, t),
        XmlEvent::End(n) => num_end(st, n@),
        _ => st,
    }
}

/// The scan of events `i..`: the final state; the empty state when the
/// tokenizer fails.
pub open spec fn num_scan(evs: Seq<PosEvent>, i: nat, st: NumScan) -> NumScan
    decreases evs.len() - i,
{
    if i >= evs.len() {
        st
    } else {
        match evs[i as int].event {
            XmlEvent::Eof => st,
            XmlEvent::Error(_) => num_start(),
            _ => num_scan(evs, i + 1, num_step(st, evs[i as int].event)),
        }
    }
}

/// The empty scan state.
pub open spec fn num_start() -> NumScan {
    NumScan {
        in_abstract: None,
        in_num: None,
        cur_lvl: None,
        cur_fmt: None,
        cur_text: None,
        n2a: Map::empty(),
        levels: Map::empty(),
    }
}

/// The numbering definitions read from a stream of events; none when the
/// tokenizer fails.
pub open spec fn numbering_of(evs: Seq<PosEvent>) -> Map<(u32, u32), (Seq<char>, Seq<char>)> {
    let st = num_scan(evs, 0, num_start());
    merged(st.n2a, st.levels)
}

/// State of the scan of `numbering.xml`, in memory.
struct NumScanExec {
    in_abstract: Option<u32>,
    in_num: Option<u32>,
    cur_lvl: Option<u32>,
    cur_fmt: Option<String>,
    cur_text: Option<String>,
    n2a: Vec<(u32, u32)>,
    levels: Vec<(u32, u32, LvlTemplate)>,
}

/// The view of an optional string.
pub open spec fn opt_view(o: Option<String>) -> Option<Seq<char>> {
    match o {
        Some(s) => Some(s@),
        None => None,
    }
}

impl View for NumScanExec {
    type V = NumScan;

    closed spec fn view(&self) -> NumScan {
        NumScan {
            in_abstract: self.in_abstract,
            in_num: self.in_num,
            cur_lvl: self.cur_lvl,
            cur_fmt: opt_view(self.cur_fmt),
            cur_text: opt_view(self.cur_text),
            n2a: n2a_map(self.n2a@),
            levels: levels_map(self.levels@),
        }
    }
}

/// The numeric value of an attribute, when present and a valid `u32`.
fn attr_u32_exec(t: &XmlTag, key: &str) -> (r: Option<u32>)
    ensures
        r == attr_u32(*t, key@),
{
    match attr_val(t, key) {
        Some(v) => parse_u32(v.as_str()),
        None => None,
    }
}

fn scan_tag(st: &mut NumScanExec, t: &XmlTag)
    ensures
        final(st)@ == num_tag(old(st)@, *t),
{
    let local = local_name(t.name.as_str());
    if same_text(local.as_str(), "abstractNum") {
        if let Some(id) = attr_u32_exec(t, "w:abstractNumId") {
            st.in_abstract = Some(id);
        }
    } else if same_text(local.as_str(), "num") {
        if let Some(id) = attr_u32_exec(t, "w:numId") {
            st.in_num = Some(id);
        }
    } else if same_text(local.as_str(), "abstractNumId") && st.in_num.is_some() {
        if let Some(aid) = attr_u32_exec(t, "w:val") {
            let nid = match st.in_num {
                Some(n) => n,
                None => 0,
            };
            st.n2a.push((nid, aid));
            assert(st.n2a@.drop_last() == old(st).n2a@);
        }
    } else if same_text(local.as_str(), "lvl") && st.in_abstract.is_some() {
        if let Some(v) = attr_val(t, "w:ilvl") {
            st.cur_lvl = parse_u32(v.as_str());
            st.cur_fmt = None;
            st.cur_text = None;
        }
    } else if same_text(local.as_str(), "numFmt") && st.cur_lvl.is_some() {
        if let Some(v) = attr_val(t, "w:val") {
            st.cur_fmt = Some(v);
        }
    } else if same_text(local.as_str(), "lvlText") && st.cur_lvl.is_some() {
        if let Some(v) = attr_val(t, "w:val") {
            st.cur_text = Some(v);
        }
    }
}

fn scan_end(st: &mut NumScanExec, name: &String)
    ensures
        final(st)@ == num_end(old(st)@, name@),
{
    let local = local_name(name.as_str());
    if same_text(local.as_str(), "lvl") {
        match (st.in_abstract, st.cur_lvl) {
            (Some(aid), Some(ilvl)) => {
                let num_fmt = match st.cur_fmt.take() {
                    Some(f) => f,
                    None => String::from_str("decimal"),
                };
                let lvl_text = match st.cur_text.take() {
                    Some(t) => t,
                    None => String::from_str("%1."),
                };
                st.levels.push((aid, ilvl, LvlTemplate { num_fmt, lvl_text }));
                assert(st.levels@.drop_last() == old(st).levels@);
            },
            _ => {},
        }
        st.cur_lvl = None;
    } else if same_text(local.as_str(), "abstractNum") {
        st.in_abstract = None;
    } else if same_text(local.as_str(), "num") {
        st.in_num = None;
    }
}

/// The numbering definitions in a stream of events (see [`numbering_of`]).
pub fn numbering_from_events(evs: &Vec<PosEvent>) -> (r: NumberingMap)
    ensures
        r@ == numbering_of(evs@),
{
    let mut st = NumScanExec {
        in_abstract: None,
        in_num: None,
        cur_lvl: None,
        cur_fmt: None,
        cur_text: None,
        n2a: Vec::new(),
        levels: Vec::new(),
    };
    assert(st@ =~= num_start());
    let mut i: usize = 0;
    while i < evs.len()
        invariant
            i <= evs@.len(),
            num_scan(evs@, 0, num_start()) == num_scan(evs@, i as nat, st@),
        ensures
            i <= evs@.len(),
            num_scan(evs@, 0, num_start()) == num_scan(evs@, i as nat, st@),
            i == evs@.len() || evs@[i as int].event is Eof,
        decreases evs@.len() - i,
    {
        match &evs[i].event {
            XmlEvent::Eof => {
                break;
            },
            XmlEvent::Error(_) => {
                let m = NumberingMap::new();
                assert(merged(num_start().n2a, num_start().levels) =~= Map::<(u32, u32), (Seq<char>, Seq<char>)>::empty());
                return m;
            },
            XmlEvent::Start(t) => scan_tag(&mut st, t),
            XmlEvent::Empty(t) => scan_tag(&mut st, t),
            XmlEvent::End(n) => scan_end(&mut st, n),
            _ => {},
        }
        i += 1;
    }
    assert(num_scan(evs@, i as nat, st@) == st@);
    NumberingMap { num_to_abstract: st.n2a, levels: st.levels }
}

/// Reads `word/numbering.xml`: the template of each `(numId, ilvl)`, as
/// read from the events that `quick_xml` reads from the bytes; when the
/// reader fails, no templates at all. It always succeeds.
pub fn parse_numbering(xml: &[u8]) -> (r: Result<NumberingMap, AppError>)
    ensures
        r is Ok,
        r->Ok_0@ == numbering_of(xml_events(xml@)),
{
    let evs = read_all_events(xml);
    Ok(numbering_from_events(&evs))
}

} // verus!
