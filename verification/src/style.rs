//! Changing the formatting of whole paragraphs: character style of every
//! run (bold, italic, size, colour, highlight, font) and paragraph
//! properties (indentation, alignment, list level).

use vstd::prelude::*;
use vstd::string::StringExecFns;
use crate::error::AppError;
use crate::model::{opt_str, Document, DocV, ParaV, Paragraph, Run, RunStyle, RunV, StyleV, clone_run};
use crate::diff::lines_view;
use crate::render::paras_view;
use crate::save::{
    find_para, find_para_exec, lemma_find_para, lemma_rebuild_one_changed, nothing_changed, only_changed,
    para_bytes, paragraphs_in_order, rebuild_bytes, split_chars, split_from, split_on,
};
use crate::text::{
    chars_of, has_prefix, opt_starts_with, parse_i32, parse_i32_spec, push_str, same_text,
    ascii_upper, is_ascii_text, string_of, string_of_range, to_lowercase, to_uppercase, trim, trim_str,
    unicode_lower,
};

verus! {

// ---------------------------------------------------------------------
// Colours
// ---------------------------------------------------------------------

/// `s` without its leading `#` characters.
pub open spec fn strip_hashes(s: Seq<char>) -> Seq<char>
    decreases s.len(),
{
    if s.len() > 0 && s[0] == '#' {
        strip_hashes(s.drop_first())
    } else {
        s
    }
}

/// `c` is an ASCII hexadecimal digit.
pub open spec fn is_hex_digit(c: char) -> bool {
    ('0' <= c && c <= '9') || ('a' <= c && c <= 'f') || ('A' <= c && c <= 'F')
}

/// The hexadecimal value of a colour name that has one.
pub open spec fn named_color(l: Seq<char>) -> Option<Seq<char>> {
    if l == "red"@ {
        Some("FF0000"@)
    } else if l == "green"@ {
        Some("00B050"@)
    } else if l == "blue"@ {
        Some("0070C0"@)
    } else if l == "yellow"@ {
        Some("FFFF00"@)
    } else if l == "orange"@ {
        Some("FFA500"@)
    } else if l == "purple"@ {
        Some("800080"@)
    } else if l == "gray"@ || l == "grey"@ {
        Some("808080"@)
    } else if l == "white"@ {
        Some("FFFFFF"@)
    } else if l == "black"@ {
        Some("000000"@)
    } else {
        None
    }
}

/// A value trimmed and lower-cased: in ASCII where it is ASCII text, else
/// in Unicode (`str::to_lowercase`).
pub open spec fn lowered(v: Seq<char>) -> Seq<char> {
    if is_ascii_text(trim(v)) {
        crate::package::ascii_lower(trim(v))
    } else {
        unicode_lower(trim(v))
    }
}

/// The colour a lower-cased colour value `lower` stands for, or the
/// message for the original value `s`: `none` and `auto` clear the colour,
/// a colour name gives its value, and six hexadecimal digits (after any
/// leading `#`) are taken in upper case.
pub open spec fn color_result(lower: Seq<char>, s: Seq<char>) -> Result<Option<Seq<char>>, Seq<char>> {
    if lower == "none"@ || lower == "auto"@ {
        Ok(None)
    } else if named_color(lower) is Some {
        Ok(named_color(lower))
    } else {
        let st = strip_hashes(lower);
        if st.len() == 6 && forall|i: int| 0 <= i < st.len() ==> is_hex_digit(#[trigger] st[i]) {
            Ok(Some(ascii_upper(st)))
        } else {
            Err("Invalid color: "@ + s)
        }
    }
}

/// The value of a result that carries an optional string.
pub open spec fn opt_result_view(r: Result<Option<String>, AppError>) -> Result<Option<Seq<char>>, Seq<char>> {
    match r {
        Ok(o) => Ok(opt_str(o)),
        Err(e) => Err(e.0@),
    }
}

/// An error whose message is `head` followed by `tail`.
fn message(head: &str, tail: &str) -> (e: AppError)
    ensures
        e.0@ == head@ + tail@,
{
    let mut m = String::from_str(head);
    push_str(&mut m, tail);
    AppError(m)
}

/// Index of the first character of `v[from..]` that is not `#`.
fn skip_hashes(v: &Vec<char>, from: usize) -> (i: usize)
    requires
        from <= v@.len(),
    ensures
        from <= i <= v@.len(),
        strip_hashes(v@.skip(from as int)) == v@.skip(i as int),
    decreases v@.len() - from,
{
    if from < v.len() && v[from] == '#' {
        assert(v@.skip(from as int).drop_first() == v@.skip(from + 1));
        skip_hashes(v, from + 1)
    } else {
        from
    }
}

/// Whether `v[lo..]` are all hexadecimal digits.
fn all_hex_from(v: &Vec<char>, lo: usize) -> (b: bool)
    requires
        lo <= v@.len(),
    ensures
        b == forall|i: int| 0 <= i < v@.skip(lo as int).len() ==> is_hex_digit(#[trigger] v@.skip(lo as int)[i]),
{
    let mut k: usize = lo;
    while k < v.len()
        invariant
            lo <= k <= v@.len(),
            forall|i: int| lo <= i < k ==> is_hex_digit(#[trigger] v@[i]),
        decreases v@.len() - k,
    {
        let c = v[k];
        if !(('0' <= c && c <= '9') || ('a' <= c && c <= 'f') || ('A' <= c && c <= 'F')) {
            assert(v@.skip(lo as int)[k - lo] == c);
            return false;
        }
        k += 1;
    }
    assert forall|i: int| 0 <= i < v@.skip(lo as int).len() implies is_hex_digit(#[trigger] v@.skip(lo as int)[i]) by {
        assert(v@.skip(lo as int)[i] == v@[lo + i]);
    }
    true
}

/// The colour for the already lower-cased value `lower` of the colour
/// argument `s` (see [`color_result`]).
pub fn color_from_lower(lower: &str, s: &str) -> (r: Result<Option<String>, AppError>)
    ensures
        opt_result_view(r) == color_result(lower@, s@),
{
    if same_text(lower, "none") || same_text(lower, "auto") {
        return Ok(None);
    }
    let named: Option<&str> = if same_text(lower, "red") {
        Some("FF0000")
    } else if same_text(lower, "green") {
        Some("00B050")
    } else if same_text(lower, "blue") {
        Some("0070C0")
    } else if same_text(lower, "yellow") {
        Some("FFFF00")
    } else if same_text(lower, "orange") {
        Some("FFA500")
    } else if same_text(lower, "purple") {
        Some("800080")
    } else if same_text(lower, "gray") || same_text(lower, "grey") {
        Some("808080")
    } else if same_text(lower, "white") {
        Some("FFFFFF")
    } else if same_text(lower, "black") {
        Some("000000")
    } else {
        None
    };
    match named {
        Some(h) => {
            assert(named_color(lower@) == Some(h@));
            Ok(Some(String::from_str(h)))
        },
        None => {
            let v = chars_of(lower);
            let i = skip_hashes(&v, 0);
            assert(v@.skip(0) == v@);
            if v.len() - i == 6 && all_hex_from(&v, i) {
                let st = string_of_range(v.as_slice(), i, v.len());
                assert(st@ == v@.skip(i as int));
                assert(is_ascii_text(st@)) by {
                    assert forall|k: int| 0 <= k < st@.len() implies (#[trigger] st@[k]) as u32 <= 0x7f by {
                        assert(is_hex_digit(strip_hashes(lower@)[k]));
                    }
                }
                Ok(Some(to_uppercase(st.as_str())))
            } else {
                Err(message("Invalid color: ", s))
            }
        },
    }
}

/// Parses a colour value: `none`/`auto`, a colour name, or six
/// hexadecimal digits with or without `#`, case-insensitively; the value
/// is upper-case hexadecimal.
pub fn parse_color(s: &str) -> (r: Result<Option<String>, AppError>)
    ensures
        opt_result_view(r) == color_result(lowered(s@), s@),
{
    let t = trim_str(s);
    let lower = to_lowercase(t.as_str());
    color_from_lower(lower.as_str(), s)
}

// ---------------------------------------------------------------------
// Character style of all runs
// ---------------------------------------------------------------------

/// The style with no formatting.
pub open spec fn plain_style() -> StyleV {
    StyleV { bold: false, italic: false, size_half_pt: None, color_hex: None, highlight: None, font_name: None }
}

/// One formatting property and its new value.
pub enum StyleField {
    Bold(bool),
    Italic(bool),
    Size(u32),
    Color(Option<Seq<char>>),
    Highlight(Option<Seq<char>>),
    Font(Option<Seq<char>>),
}

/// `s` with the property `f` set.
pub open spec fn set_field(s: StyleV, f: StyleField) -> StyleV {
    match f {
        StyleField::Bold(b) => StyleV { bold: b, ..s },
        StyleField::Italic(b) => StyleV { italic: b, ..s },
        StyleField::Size(h) => StyleV { size_half_pt: Some(h), ..s },
        StyleField::Color(c) => StyleV { color_hex: c, ..s },
        StyleField::Highlight(c) => StyleV { highlight: c, ..s },
        StyleField::Font(c) => StyleV { font_name: c, ..s },
    }
}

/// An empty run of text with style `st`, which holds the formatting of an
/// empty paragraph.
pub open spec fn placeholder_run(st: StyleV) -> RunV {
    RunV {
        text: Seq::empty(),
        style: st,
        is_drawing: false,
        rel_id: None,
        byte_range: None,
        media_name: None,
        drawing_xml: None,
    }
}

/// The paragraph with property `f` set on every run; a paragraph without
/// runs gets one empty run with only that property when `make` holds.
pub open spec fn with_field(p: ParaV, f: StyleField, make: bool) -> ParaV {
    if p.runs.len() == 0 && make {
        ParaV { runs: seq![placeholder_run(set_field(plain_style(), f))], ..p }
    } else {
        ParaV { runs: p.runs.map_values(|r: RunV| RunV { style: set_field(r.style, f), ..r }), ..p }
    }
}

/// The value a toggle sets: on, unless every run already has it (an
/// empty paragraph is switched on).
pub open spec fn toggled(runs: Seq<RunV>, italic: bool) -> bool {
    runs.len() == 0 || exists|i: int| 0 <= i < runs.len() && !(if italic { (#[trigger] runs[i]).style.italic } else { runs[i].style.bold })
}

/// A formatting property with its new value, as the code holds it.
pub enum FieldSet {
    Bold(bool),
    Italic(bool),
    Size(u32),
    Color(Option<String>),
    Highlight(Option<String>),
    Font(Option<String>),
}

impl View for FieldSet {
    type V = StyleField;

    open spec fn view(&self) -> StyleField {
        match self {
            FieldSet::Bold(b) => StyleField::Bold(*b),
            FieldSet::Italic(b) => StyleField::Italic(*b),
            FieldSet::Size(h) => StyleField::Size(*h),
            FieldSet::Color(c) => StyleField::Color(opt_str(*c)),
            FieldSet::Highlight(c) => StyleField::Highlight(opt_str(*c)),
            FieldSet::Font(c) => StyleField::Font(opt_str(*c)),
        }
    }
}

fn clone_opt(o: &Option<String>) -> (r: Option<String>)
    ensures
        opt_str(r) == opt_str(*o),
{
    match o {
        Some(s) => Some(s.clone()),
        None => None,
    }
}

/// Sets property `f` in a style.
fn set_field_exec(st: &mut RunStyle, f: &FieldSet)
    ensures
        final(st)@ == set_field(old(st)@, f@),
{
    match f {
        FieldSet::Bold(b) => st.bold = *b,
        FieldSet::Italic(b) => st.italic = *b,
        FieldSet::Size(h) => st.size_half_pt = Some(*h),
        FieldSet::Color(c) => st.color_hex = clone_opt(c),
        FieldSet::Highlight(c) => st.highlight = clone_opt(c),
        FieldSet::Font(c) => st.font_name = clone_opt(c),
    }
}

/// Sets property `f` on every run of `p`, or gives a paragraph without
/// runs one empty run with it when `make` holds.
fn with_field_exec(p: &mut Paragraph, f: &FieldSet, make: bool)
    ensures
        final(p)@ == with_field(old(p)@, f@, make),
{
    let ghost p0 = p@;
    if p.runs.len() == 0 && make {
        let mut st = RunStyle {
            bold: false,
            italic: false,
            size_half_pt: None,
            color_hex: None,
            highlight: None,
            font_name: None,
        };
        set_field_exec(&mut st, f);
        p.runs.push(
            Run {
                text: String::new(),
                style: st,
                is_drawing: false,
                rel_id: None,
                byte_range: None,
                media_name: None,
                drawing_xml: None,
            },
        );
        assert(p@.runs =~= seq![placeholder_run(set_field(plain_style(), f@))]);
        return;
    }
    let ghost target = p0.runs.map_values(|r: RunV| RunV { style: set_field(r.style, f@), ..r });
    let mut runs: Vec<Run> = Vec::new();
    let mut i: usize = 0;
    while i < p.runs.len()
        invariant
            p@ == p0,
            target == p0.runs.map_values(|r: RunV| RunV { style: set_field(r.style, f@), ..r }),
            i <= p.runs@.len(),
            runs@.len() == i,
            forall|k: int| 0 <= k < i ==> (#[trigger] runs@[k])@ == target[k],
        decreases p.runs@.len() - i,
    {
        let mut r = clone_run(&p.runs[i]);
        set_field_exec(&mut r.style, f);
        runs.push(r);
        i += 1;
    }
    p.runs = runs;
    assert(p@.runs =~= target);
}

/// Whether the runs' toggle of bold (or italic) sets it on.
fn toggled_exec(runs: &Vec<Run>, italic: bool) -> (b: bool)
    ensures
        b == toggled(runs@.map_values(|r: Run| r@), italic),
{
    let ghost rv = runs@.map_values(|r: Run| r@);
    if runs.len() == 0 {
        return true;
    }
    let mut i: usize = 0;
    while i < runs.len()
        invariant
            rv == runs@.map_values(|r: Run| r@),
            i <= runs@.len(),
            forall|k: int| 0 <= k < i ==> (if italic { (#[trigger] rv[k]).style.italic } else { rv[k].style.bold }),
        decreases runs@.len() - i,
    {
        let on = if italic { runs[i].style.italic } else { runs[i].style.bold };
        if !on {
            assert(!(if italic { rv[i as int].style.italic } else { rv[i as int].style.bold }));
            return true;
        }
        i += 1;
    }
    false
}

// ---------------------------------------------------------------------
// Paragraph properties
// ---------------------------------------------------------------------

/// ASCII case folding of one character, as a code point.
pub open spec fn ascii_fold(c: char) -> int {
    if 'A' <= c && c <= 'Z' {
        (c as u32) as int + 32
    } else {
        (c as u32) as int
    }
}

/// `a` and `b` are equal ignoring ASCII case (std's
/// `str::eq_ignore_ascii_case`, for an ASCII `b`).
pub open spec fn ascii_ci_eq(a: Seq<char>, b: Seq<char>) -> bool {
    a.len() == b.len() && forall|i: int| 0 <= i < a.len() ==> ascii_fold(#[trigger] a[i]) == ascii_fold(b[i])
}

/// Whether `a` and `b` are equal ignoring ASCII case.
pub fn eq_ignore_ascii_case(a: &str, b: &str) -> (r: bool)
    ensures
        r == ascii_ci_eq(a@, b@),
{
    let va = chars_of(a);
    let vb = chars_of(b);
    if va.len() != vb.len() {
        return false;
    }
    let mut i: usize = 0;
    while i < va.len()
        invariant
            va@ == a@,
            vb@ == b@,
            va@.len() == vb@.len(),
            i <= va@.len(),
            forall|k: int| 0 <= k < i ==> ascii_fold(#[trigger] va@[k]) == ascii_fold(vb@[k]),
        decreases va@.len() - i,
    {
        let x = va[i];
        let y = vb[i];
        proof {
            vstd::utf8::char_is_scalar(x);
            vstd::utf8::char_is_scalar(y);
        }
        let fx: u32 = if 'A' <= x && x <= 'Z' { x as u32 + 32 } else { x as u32 };
        let fy: u32 = if 'A' <= y && y <= 'Z' { y as u32 + 32 } else { y as u32 };
        assert(fx as int == ascii_fold(x) && fy as int == ascii_fold(y));
        if fx != fy {
            assert(ascii_fold(va@[i as int]) != ascii_fold(vb@[i as int]));
            return false;
        }
        i += 1;
    }
    true
}

/// The level a level argument `t` (already trimmed) asks for, from the
/// current level `cur`: `+n` and `-n` move by `n`, a plain number sets
/// the level; the sum wraps around like the machine's 32-bit addition.
pub open spec fn level_change(cur: i32, t: Seq<char>) -> Option<i32> {
    if t.len() > 0 && t[0] == '+' {
        match parse_i32_spec(t.drop_first()) {
            Some(d) => Some(cur.wrapping_add(d)),
            None => None,
        }
    } else if t.len() > 0 && t[0] == '-' {
        match parse_i32_spec(t) {
            Some(d) => Some(cur.wrapping_add(d)),
            None => None,
        }
    } else {
        parse_i32_spec(t)
    }
}

/// Computes [`level_change`].
fn level_change_exec(cur: i32, t: &str) -> (r: Option<i32>)
    ensures
        r == level_change(cur, t@),
{
    let v = chars_of(t);
    if v.len() > 0 && v[0] == '+' {
        let rest = string_of_range(v.as_slice(), 1, v.len());
        assert(rest@ == t@.drop_first());
        match parse_i32(rest.as_str()) {
            Some(d) => Some(cur.wrapping_add(d)),
            None => None,
        }
    } else if v.len() > 0 && v[0] == '-' {
        match parse_i32(t) {
            Some(d) => Some(cur.wrapping_add(d)),
            None => None,
        }
    } else {
        parse_i32(t)
    }
}

/// The indentation for the new level `n` (negative levels count as 0):
/// none at level 0, else 720 twips a level, wrapping around like the
/// machine's 32-bit multiplication.
pub open spec fn indent_for(n: i32) -> Option<i32> {
    let m: i32 = if n < 0 { 0 } else { n };
    if m == 0 {
        None
    } else {
        Some(m.wrapping_mul(720))
    }
}

/// The alignment that a lower-cased alignment value names (`None` inside
/// clears it), or `None` for a value that names none.
pub open spec fn align_value(lower: Seq<char>) -> Option<Option<Seq<char>>> {
    if lower == "left"@ {
        Some(Some("left"@))
    } else if lower == "center"@ || lower == "centre"@ {
        Some(Some("center"@))
    } else if lower == "right"@ {
        Some(Some("right"@))
    } else if lower == "both"@ || lower == "justify"@ {
        Some(Some("both"@))
    } else if lower == "none"@ {
        Some(None)
    } else {
        None
    }
}

/// The paragraph is a list item (it has a numbering instance or a list
/// paragraph style).
pub open spec fn is_list_item(p: ParaV) -> bool {
    p.num_id is Some || (p.para_style is Some && has_prefix(p.para_style->0, "List"@))
}

/// The message for a list level change on a paragraph that is no list item.
pub open spec fn not_a_list_message() -> Seq<char> {
    "Paragraph is not a list item \u{2014} use :DocxIndent instead"@
}

/// The paragraph after `attr` was set to `value`, or the message of the
/// error. `lower` is the lower-cased trimmed value and `size` the size in
/// half points that a `size` value gives, if it is a number.
///
/// - `togglebold`, `toggleitalic`: every run gets the property on, unless
///   all runs have it, then off; an empty paragraph gets an empty run with
///   it on.
/// - `size`, `color`, `highlight`, `font`: every run gets the value; an
///   empty paragraph gets an empty run with it (for the last three only
///   when the value does not clear the property). `highlight` is cleared by
///   `none`, `font` by `none` in any ASCII case or an empty value.
/// - `indent`: `+n`/`-n` move the level by `n`, `n` sets it; the
///   paragraph is indented 720 twips a level.
/// - `align`: `left`, `center`/`centre`, `right`, `both`/`justify`, or
///   `none` to clear it.
/// - `ilvl`: for list items only, moves or sets the list level, kept
///   within 0 to 8.
pub open spec fn style_applied(
    p: ParaV,
    attr: Seq<char>,
    value: Seq<char>,
    lower: Seq<char>,
    size: Option<u32>,
) -> Result<ParaV, Seq<char>> {
    if attr == "togglebold"@ {
        Ok(with_field(p, StyleField::Bold(toggled(p.runs, false)), true))
    } else if attr == "toggleitalic"@ {
        Ok(with_field(p, StyleField::Italic(toggled(p.runs, true)), true))
    } else if attr == "size"@ {
        match size {
            Some(h) => Ok(with_field(p, StyleField::Size(h), true)),
            None => Err("Invalid size: "@ + value),
        }
    } else if attr == "color"@ {
        match color_result(lower, value) {
            Ok(c) => Ok(with_field(p, StyleField::Color(c), c is Some)),
            Err(m) => Err(m),
        }
    } else if attr == "highlight"@ {
        let c = if lower == "none"@ { None } else { Some(trim(value)) };
        Ok(with_field(p, StyleField::Highlight(c), c is Some))
    } else if attr == "font"@ {
        let t = trim(value);
        let c = if t.len() == 0 || ascii_ci_eq(t, "none"@) { None } else { Some(t) };
        Ok(with_field(p, StyleField::Font(c), c is Some))
    } else if attr == "indent"@ {
        match level_change(crate::render::indent_level(p) as i32, trim(value)) {
            Some(n) => Ok(ParaV { indent_twips: indent_for(n), ..p }),
            None => Err("Invalid indent: "@ + value),
        }
    } else if attr == "align"@ {
        match align_value(lower) {
            Some(a) => Ok(ParaV { alignment: a, ..p }),
            None => Err("Invalid align: "@ + value),
        }
    } else if attr == "ilvl"@ {
        if !is_list_item(p) {
            Err(not_a_list_message())
        } else {
            let cur: i32 = match p.num_ilvl {
                Some(l) => l as i32,
                None => 0,
            };
            match level_change(cur, trim(value)) {
                Some(n) => Ok(ParaV { num_ilvl: Some((if n < 0 { 0 } else if n > 8 { 8 } else { n }) as u32), ..p }),
                None => Err("Invalid ilvl: "@ + value),
            }
        }
    } else {
        Err("Unknown style attr: "@ + attr)
    }
}

/// Sets the style attribute `attr` of a paragraph to `value`, with `lower`
/// the lower-cased trimmed value and `size` the half-point size that a
/// `size` value gives (see [`style_applied`]); on an error the paragraph
/// is left as it was.
pub fn apply_style_lowered(p: &mut Paragraph, attr: &str, value: &str, lower: &str, size: Option<u32>) -> (r: Result<(), AppError>)
    ensures
        match style_applied(old(p)@, attr@, value@, lower@, size) {
            Ok(q) => r is Ok && final(p)@ == q,
            Err(m) => r is Err && r->Err_0.0@ == m && final(p)@ == old(p)@,
        },
{
    if same_text(attr, "togglebold") {
        let on = toggled_exec(&p.runs, false);
        with_field_exec(p, &FieldSet::Bold(on), true);
        Ok(())
    } else if same_text(attr, "toggleitalic") {
        let on = toggled_exec(&p.runs, true);
        with_field_exec(p, &FieldSet::Italic(on), true);
        Ok(())
    } else if same_text(attr, "size") {
        match size {
            Some(h) => {
                with_field_exec(p, &FieldSet::Size(h), true);
                Ok(())
            },
            None => Err(message("Invalid size: ", value)),
        }
    } else if same_text(attr, "color") {
        match color_from_lower(lower, value) {
            Ok(c) => {
                let make = c.is_some();
                with_field_exec(p, &FieldSet::Color(c), make);
                Ok(())
            },
            Err(e) => Err(e),
        }
    } else if same_text(attr, "highlight") {
        let c = if same_text(lower, "none") { None } else { Some(trim_str(value)) };
        let make = c.is_some();
        with_field_exec(p, &FieldSet::Highlight(c), make);
        Ok(())
    } else if same_text(attr, "font") {
        let t = trim_str(value);
        let c = if t.as_str().is_empty() || eq_ignore_ascii_case(t.as_str(), "none") { None } else { Some(t) };
        let make = c.is_some();
        with_field_exec(p, &FieldSet::Font(c), make);
        Ok(())
    } else if same_text(attr, "indent") {
        let cur: i32 = match p.indent_twips {
            Some(t) => if t < 0 { 0 } else { t / 720 },
            None => 0,
        };
        let t = trim_str(value);
        match level_change_exec(cur, t.as_str()) {
            Some(n) => {
                let m: i32 = if n < 0 { 0 } else { n };
                p.indent_twips = if m == 0 { None } else { Some(m.wrapping_mul(720)) };
                Ok(())
            },
            None => Err(message("Invalid indent: ", value)),
        }
    } else if same_text(attr, "align") {
        let a: Option<&str> = if same_text(lower, "left") {
            Some("left")
        } else if same_text(lower, "center") || same_text(lower, "centre") {
            Some("center")
        } else if same_text(lower, "right") {
            Some("right")
        } else if same_text(lower, "both") || same_text(lower, "justify") {
            Some("both")
        } else if same_text(lower, "none") {
            None
        } else {
            return Err(message("Invalid align: ", value));
        };
        p.alignment = match a {
            Some(s) => Some(String::from_str(s)),
            None => None,
        };
        Ok(())
    } else if same_text(attr, "ilvl") {
        if !(p.num_id.is_some() || opt_starts_with(&p.para_style, "List")) {
            return Err(AppError(String::from_str("Paragraph is not a list item \u{2014} use :DocxIndent instead")));
        }
        let cur: i32 = match p.num_ilvl {
            Some(l) => l as i32,
            None => 0,
        };
        let t = trim_str(value);
        match level_change_exec(cur, t.as_str()) {
            Some(n) => {
                let c: i32 = if n < 0 { 0 } else if n > 8 { 8 } else { n };
                p.num_ilvl = Some(c as u32);
                Ok(())
            },
            None => Err(message("Invalid ilvl: ", value)),
        }
    } else {
        Err(message("Unknown style attr: ", attr))
    }
}

/// Sets the style attribute `attr` of a paragraph to `value`; `size` is
/// the size in half points that a `size` value gives, if it is a number.
/// The result is [`style_applied`] for the lower-cased trimmed value.
pub fn apply_style_attr(p: &mut Paragraph, attr: &str, value: &str, size: Option<u32>) -> (r: Result<(), AppError>)
    ensures
        match style_applied(old(p)@, attr@, value@, lowered(value@), size) {
            Ok(q) => r is Ok && final(p)@ == q,
            Err(m) => r is Err && r->Err_0.0@ == m && final(p)@ == old(p)@,
        },
{
    let t = trim_str(value);
    let lower = to_lowercase(t.as_str());
    apply_style_lowered(p, attr, value, lower.as_str(), size)
}

// ---------------------------------------------------------------------
// Setting a style on several paragraphs
// ---------------------------------------------------------------------

/// The paragraphs after the style was set on the first paragraph named by
/// each (trimmed, non-empty) piece of `pieces` in turn, each such
/// paragraph marked changed, and whether any piece named a paragraph; or
/// the message of the first error.
pub open spec fn style_ids(
    ps: Seq<ParaV>,
    pieces: Seq<Seq<char>>,
    attr: Seq<char>,
    value: Seq<char>,
    lower: Seq<char>,
    size: Option<u32>,
    hit: bool,
) -> Result<(Seq<ParaV>, bool), Seq<char>>
    decreases pieces.len(),
{
    if pieces.len() == 0 {
        Ok((ps, hit))
    } else {
        let id = trim(pieces[0]);
        let rest = pieces.drop_first();
        if id.len() == 0 {
            style_ids(ps, rest, attr, value, lower, size, hit)
        } else {
            match find_para(ps, id) {
                None => style_ids(ps, rest, attr, value, lower, size, hit),
                Some(i) => match style_applied(ps[i as int], attr, value, lower, size) {
                    Err(m) => Err(m),
                    Ok(q) => style_ids(ps.update(i as int, ParaV { dirty: true, ..q }), rest, attr, value, lower, size, true),
                },
            }
        }
    }
}

/// The document after the style attribute `attr` was set to `value` on
/// the paragraphs listed, separated by commas, in `para_ids`; an error
/// when one of them refuses the value or none of them exists.
pub open spec fn style_set(
    d: DocV,
    para_ids: Seq<char>,
    attr: Seq<char>,
    value: Seq<char>,
    lower: Seq<char>,
    size: Option<u32>,
) -> Result<DocV, Seq<char>> {
    match style_ids(d.paragraphs, split_on(para_ids, ','), attr, value, lower, size, false) {
        Err(m) => Err(m),
        Ok((ps, hit)) => if hit {
            Ok(DocV { paragraphs: ps, ..d })
        } else {
            Err("No paragraphs matched: "@ + para_ids)
        },
    }
}

/// Sets the style attribute `attr` to `value` on every paragraph listed in
/// `para_ids` (see [`style_set`]), with `lower` the lower-cased trimmed
/// value and `size` the half-point size that a `size` value gives.
pub fn set_style_lowered(
    doc: &mut Document,
    para_ids: &str,
    attr: &str,
    value: &str,
    lower: &str,
    size: Option<u32>,
) -> (r: Result<(), AppError>)
    ensures
        match style_set(old(doc)@, para_ids@, attr@, value@, lower@, size) {
            Ok(d) => r is Ok && final(doc)@ == d,
            Err(m) => r is Err && r->Err_0.0@ == m,
        },
{
    let ghost d0 = doc@;
    let pv = chars_of(para_ids);
    let pieces = split_chars(&pv, ',');
    let ghost all = lines_view(pieces@);
    let mut hit = false;
    let mut k: usize = 0;
    assert(all.skip(0) == all);
    while k < pieces.len()
        invariant
            d0 == old(doc)@,
            all == lines_view(pieces@),
            all == split_on(para_ids@, ','),
            k <= pieces@.len(),
            doc@ == (DocV { paragraphs: doc@.paragraphs, ..d0 }),
            style_ids(d0.paragraphs, all, attr@, value@, lower@, size, false)
                == style_ids(doc@.paragraphs, all.skip(k as int), attr@, value@, lower@, size, hit),
        decreases pieces@.len() - k,
    {
        let ghost ps = doc@.paragraphs;
        assert(all.skip(k as int)[0] == pieces@[k as int]@);
        assert(all.skip(k as int).drop_first() == all.skip(k + 1));
        let piece = string_of(pieces[k].as_slice());
        let id = trim_str(piece.as_str());
        if !id.as_str().is_empty() {
            assert(paras_view(doc.paragraphs@) =~= ps);
            match find_para_exec(&doc.paragraphs, id.as_str()) {
                None => {},
                Some(i) => {
                    let mut q = crate::model::clone_paragraph(&doc.paragraphs[i]);
                    assert(q@ == ps[i as int]);
                    match apply_style_lowered(&mut q, attr, value, lower, size) {
                        Err(e) => {
                            assert(style_ids(ps, all.skip(k as int), attr@, value@, lower@, size, hit) == Err::<(Seq<ParaV>, bool), Seq<char>>(e.0@));
                            return Err(e);
                        },
                        Ok(()) => {},
                    }
                    q.dirty = true;
                    let ghost qv = q@;
                    doc.paragraphs.set(i, q);
                    assert(doc@.paragraphs =~= ps.update(i as int, qv));
                    hit = true;
                },
            }
        }
        k += 1;
    }
    if !hit {
        return Err(message("No paragraphs matched: ", para_ids));
    }
    Ok(())
}

/// Sets the style attribute `attr` to `value` on every paragraph listed,
/// separated by commas, in `para_ids`; `size` is the half-point size that
/// a `size` value gives, if it is a number. The result is [`style_set`]
/// for the lower-cased trimmed value.
pub fn set_style(doc: &mut Document, para_ids: &str, attr: &str, value: &str, size: Option<u32>) -> (r: Result<(), AppError>)
    ensures
        match style_set(old(doc)@, para_ids@, attr@, value@, lowered(value@), size) {
            Ok(d) => r is Ok && final(doc)@ == d,
            Err(m) => r is Err && r->Err_0.0@ == m,
        },
{
    let t = trim_str(value);
    let lower = to_lowercase(t.as_str());
    set_style_lowered(doc, para_ids, attr, value, lower.as_str(), size)
}

// ---------------------------------------------------------------------
// What setting a style keeps
// ---------------------------------------------------------------------

/// Setting a style changes neither the identifier of a paragraph, nor
/// its place in the original XML, nor its place in the document's
/// structure.
pub proof fn lemma_style_keeps_place(p: ParaV, attr: Seq<char>, value: Seq<char>, lower: Seq<char>, size: Option<u32>)
    ensures
        style_applied(p, attr, value, lower, size) matches Ok(q) ==> q.id == p.id && q.byte_range == p.byte_range
            && q.context == p.context,
{
}

/// Some piece of the list names `id`.
pub open spec fn names_id(pieces: Seq<Seq<char>>, id: Seq<char>) -> bool {
    exists|k: int| 0 <= k < pieces.len() && trim(#[trigger] pieces[k]) == id
}

/// Setting a style on the listed paragraphs keeps the number of
/// paragraphs and the identifier, byte range and context of each, and
/// leaves every paragraph that no piece of the list names as it was.
pub proof fn lemma_style_ids_frame(
    ps: Seq<ParaV>,
    pieces: Seq<Seq<char>>,
    attr: Seq<char>,
    value: Seq<char>,
    lower: Seq<char>,
    size: Option<u32>,
    hit: bool,
)
    ensures
        style_ids(ps, pieces, attr, value, lower, size, hit) matches Ok((qs, _)) ==> {
            &&& qs.len() == ps.len()
            &&& forall|i: int| 0 <= i < ps.len() ==> (#[trigger] qs[i]).id == ps[i].id && qs[i].byte_range
                == ps[i].byte_range && qs[i].context == ps[i].context
            &&& forall|i: int| 0 <= i < ps.len() && !names_id(pieces, ps[i].id) ==> #[trigger] qs[i] == ps[i]
            &&& forall|i: int| 0 <= i < ps.len() ==> #[trigger] qs[i] == ps[i] || qs[i].dirty
        },
    decreases pieces.len(),
{
    if pieces.len() > 0 {
        let id = trim(pieces[0]);
        let rest = pieces.drop_first();
        assert forall|x: Seq<char>| #[trigger] names_id(rest, x) implies names_id(pieces, x) by {
            let k = choose|k: int| 0 <= k < rest.len() && trim(#[trigger] rest[k]) == x;
            assert(pieces[k + 1] == rest[k]);
        }
        if id.len() == 0 {
            lemma_style_ids_frame(ps, rest, attr, value, lower, size, hit);
        } else {
            match find_para(ps, id) {
                None => {
                    lemma_style_ids_frame(ps, rest, attr, value, lower, size, hit);
                },
                Some(i) => {
                    lemma_find_para(ps, id);
                    match style_applied(ps[i as int], attr, value, lower, size) {
                        Err(m) => {},
                        Ok(q) => {
                            lemma_style_keeps_place(ps[i as int], attr, value, lower, size);
                            let ps2 = ps.update(i as int, ParaV { dirty: true, ..q });
                            lemma_style_ids_frame(ps2, rest, attr, value, lower, size, true);
                            assert(names_id(pieces, ps[i as int].id)) by {
                                assert(trim(pieces[0]) == ps[i as int].id);
                            }
                        },
                    }
                },
            }
        }
    }
}

/// Setting a style on paragraphs keeps the number of paragraphs and the
/// identifier, byte range and structural place of each, leaves every
/// paragraph not listed as it was, changes nothing else of the document,
/// and so keeps its byte ranges valid for a rebuild.
pub proof fn lemma_style_set_frame(
    d: DocV,
    para_ids: Seq<char>,
    attr: Seq<char>,
    value: Seq<char>,
    lower: Seq<char>,
    size: Option<u32>,
)
    ensures
        style_set(d, para_ids, attr, value, lower, size) matches Ok(d2) ==> {
            &&& d2.paragraphs.len() == d.paragraphs.len()
            &&& forall|i: int| 0 <= i < d.paragraphs.len() ==> (#[trigger] d2.paragraphs[i]).id == d.paragraphs[i].id
                && d2.paragraphs[i].byte_range == d.paragraphs[i].byte_range && d2.paragraphs[i].context
                == d.paragraphs[i].context
            &&& forall|i: int| 0 <= i < d.paragraphs.len() && !names_id(split_on(para_ids, ','), d.paragraphs[i].id)
                ==> #[trigger] d2.paragraphs[i] == d.paragraphs[i]
            &&& d2.original_xml == d.original_xml && d2.body_inner_range == d.body_inner_range
            &&& d2.deleted_ranges == d.deleted_ranges && d2.pending_inserts == d.pending_inserts
            &&& crate::save::ranges_ok(d) ==> crate::save::ranges_ok(d2)
        },
{
    lemma_style_ids_frame(d.paragraphs, split_on(para_ids, ','), attr, value, lower, size, false);
    if style_set(d, para_ids, attr, value, lower, size) is Ok {
        let d2 = style_set(d, para_ids, attr, value, lower, size)->Ok_0;
        if crate::save::ranges_ok(d) {
            assert forall|i: int| 0 <= i < d2.paragraphs.len() implies crate::save::para_range_ok(
                #[trigger] d2.paragraphs[i],
                d2.original_xml.len(),
            ) by {
                assert(crate::save::para_range_ok(d.paragraphs[i], d.original_xml.len()));
                assert(d2.paragraphs[i] == d.paragraphs[i] || d2.paragraphs[i].dirty);
            }
        }
    }
}

/// After a bold toggle the paragraph has runs and all of them agree:
/// bold, unless every run of the paragraph was bold before.
pub proof fn lemma_toggle_bold_uniform(p: ParaV, value: Seq<char>, lower: Seq<char>, size: Option<u32>)
    ensures
        style_applied(p, "togglebold"@, value, lower, size) matches Ok(q) ==> {
            &&& q.runs.len() >= 1
            &&& forall|i: int| 0 <= i < q.runs.len() ==> (#[trigger] q.runs[i]).style.bold == (p.runs.len() == 0
                || exists|j: int| 0 <= j < p.runs.len() && !(#[trigger] p.runs[j]).style.bold)
        },
{
}

/// The runs all agree on bold.
pub open spec fn uniform_bold(runs: Seq<RunV>) -> bool {
    forall|i: int, j: int| 0 <= i < runs.len() && 0 <= j < runs.len() ==> (#[trigger] runs[i]).style.bold
        == (#[trigger] runs[j]).style.bold
}

/// What `+1` and `-1` do to a level.
proof fn lemma_level_steps(cur: i32)
    ensures
        cur < i32::MAX ==> level_change(cur, trim("+1"@)) == Some((cur + 1) as i32),
        cur > i32::MIN ==> level_change(cur, trim("-1"@)) == Some((cur - 1) as i32),
{
    reveal_strlit("+1");
    reveal_strlit("-1");
    let up = "+1"@;
    let down = "-1"@;
    let one = seq!['1'];
    assert(one.drop_last() =~= Seq::<char>::empty());
    assert(crate::text::digits_value(Seq::<char>::empty()) == 0);
    assert(one.last() as u32 == 49);
    assert(crate::text::digits_value(one) == 1);
    assert(crate::text::all_digits(one));
    assert(trim(up) == up);
    assert(trim(down) == down);
    assert(up.drop_first() =~= one);
    assert(down.drop_first() =~= one);
    assert(parse_i32_spec(one) == Some(1i32));
    assert(parse_i32_spec(down) == Some(-1i32));
}

/// The names of the style attributes are told apart by their lengths.
proof fn lemma_attr_names()
    ensures
        "indent"@.len() == 6,
        "ilvl"@.len() == 4,
        "togglebold"@.len() == 10,
        "toggleitalic"@.len() == 12,
        "size"@.len() == 4,
        "color"@.len() == 5,
        "highlight"@.len() == 9,
        "font"@.len() == 4,
        "align"@.len() == 5,
        "ilvl"@ != "size"@,
        "ilvl"@ != "font"@,
        "size"@ != "font"@,
        "color"@ != "align"@,
{
    reveal_strlit("indent");
    reveal_strlit("ilvl");
    reveal_strlit("togglebold");
    reveal_strlit("toggleitalic");
    reveal_strlit("size");
    reveal_strlit("color");
    reveal_strlit("highlight");
    reveal_strlit("font");
    reveal_strlit("align");
    assert("ilvl"@[0] != "size"@[0]);
    assert("ilvl"@[0] != "font"@[0]);
    assert("size"@[0] != "font"@[0]);
    assert("color"@[0] != "align"@[0]);
}

/// Raising the indentation a level and lowering it again gives back a
/// paragraph indented a whole number of levels.
pub proof fn lemma_indent_up_down(p: ParaV, lower1: Seq<char>, lower2: Seq<char>, size: Option<u32>)
    requires
        p.indent_twips matches Some(t) ==> 0 < t && t % 720 == 0 && t <= i32::MAX - 720,
    ensures
        style_applied(p, "indent"@, "+1"@, lower1, size) matches Ok(q) && style_applied(q, "indent"@, "-1"@, lower2, size)
            == Ok::<ParaV, Seq<char>>(p),
{
    lemma_attr_names();
    let l = crate::render::indent_level(p);
    let t: int = match p.indent_twips {
        Some(t) => t as int,
        None => 0,
    };
    assert(t == l * 720) by (nonlinear_arith)
        requires
            t % 720 == 0,
            0 <= t,
            l == t / 720,
    ;
    lemma_level_steps(l as i32);
    let up: i32 = (l + 1) as i32;
    let tw: i32 = (t + 720) as i32;
    assert(up * 720 == tw);
    assert(up.wrapping_mul(720) == tw) by {
        assert(0 <= up * 720 <= i32::MAX);
        assert((up * 720) % 0x1_0000_0000 == up * 720) by {
            vstd::arithmetic::div_mod::lemma_small_mod((up * 720) as nat, 0x1_0000_0000);
        }
    }
    let q = ParaV { indent_twips: Some(tw), ..p };
    assert(style_applied(p, "indent"@, "+1"@, lower1, size) == Ok::<ParaV, Seq<char>>(q));
    assert(crate::render::indent_level(q) == l + 1) by (nonlinear_arith)
        requires
            crate::render::indent_level(q) == tw / 720,
            tw == (l + 1) * 720,
    ;
    lemma_level_steps(up);
    if l > 0 {
        assert((l as i32).wrapping_mul(720) == t) by {
            assert(0 <= l * 720 <= i32::MAX);
            vstd::arithmetic::div_mod::lemma_small_mod((l * 720) as nat, 0x1_0000_0000);
        }
    }
    assert(style_applied(q, "indent"@, "-1"@, lower2, size) == Ok::<ParaV, Seq<char>>(p));
}

/// Raising a list item a level and lowering it again gives back the item,
/// below the deepest level.
pub proof fn lemma_list_level_up_down(p: ParaV, lower1: Seq<char>, lower2: Seq<char>, size: Option<u32>)
    requires
        is_list_item(p),
        p.num_ilvl matches Some(l) && l < 8,
    ensures
        style_applied(p, "ilvl"@, "+1"@, lower1, size) matches Ok(q) && style_applied(q, "ilvl"@, "-1"@, lower2, size)
            == Ok::<ParaV, Seq<char>>(p),
{
    lemma_attr_names();
    let l = p.num_ilvl->0;
    lemma_level_steps(l as i32);
    lemma_level_steps((l + 1) as i32);
    let q = ParaV { num_ilvl: Some((l + 1) as u32), ..p };
    assert(style_applied(p, "ilvl"@, "+1"@, lower1, size) == Ok::<ParaV, Seq<char>>(q));
    assert(style_applied(q, "ilvl"@, "-1"@, lower2, size) == Ok::<ParaV, Seq<char>>(p));
}

/// Toggling bold twice gives back a paragraph whose runs agree on bold.
pub proof fn lemma_toggle_bold_twice(p: ParaV, value: Seq<char>, lower: Seq<char>, size: Option<u32>)
    requires
        p.runs.len() > 0,
        uniform_bold(p.runs),
    ensures
        style_applied(p, "togglebold"@, value, lower, size) matches Ok(q) && style_applied(q, "togglebold"@, value, lower, size)
            == Ok::<ParaV, Seq<char>>(p),
{
    let b0 = p.runs[0].style.bold;
    let t1 = toggled(p.runs, false);
    assert(t1 == !b0) by {
        if !b0 {
            assert(!p.runs[0].style.bold);
        } else {
            assert forall|j: int| 0 <= j < p.runs.len() implies (#[trigger] p.runs[j]).style.bold by {
                assert(p.runs[j].style.bold == p.runs[0].style.bold);
            }
        }
    }
    let q = with_field(p, StyleField::Bold(t1), true);
    let t2 = toggled(q.runs, false);
    assert(t2 == b0) by {
        if b0 {
            assert(!q.runs[0].style.bold);
        } else {
            assert forall|j: int| 0 <= j < q.runs.len() implies (#[trigger] q.runs[j]).style.bold by {}
        }
    }
    let r = with_field(q, StyleField::Bold(t2), true);
    assert(r.runs =~= p.runs) by {
        assert forall|i: int| 0 <= i < p.runs.len() implies #[trigger] r.runs[i] == p.runs[i] by {
            assert(p.runs[i].style.bold == b0);
            assert(r.runs[i].style == p.runs[i].style);
        }
    }
    assert(r == p);
}


/// After an italic toggle the paragraph has runs and all of them agree:
/// italic, unless every run of the paragraph was italic before.
pub proof fn lemma_toggle_italic_uniform(p: ParaV, value: Seq<char>, lower: Seq<char>, size: Option<u32>)
    ensures
        style_applied(p, "toggleitalic"@, value, lower, size) matches Ok(q) ==> {
            &&& q.runs.len() >= 1
            &&& forall|i: int| 0 <= i < q.runs.len() ==> (#[trigger] q.runs[i]).style.italic == (p.runs.len() == 0
                || exists|j: int| 0 <= j < p.runs.len() && !(#[trigger] p.runs[j]).style.italic)
        },
{
    lemma_attr_names();
}

/// The runs all agree on italic.
pub open spec fn uniform_italic(runs: Seq<RunV>) -> bool {
    forall|i: int, j: int| 0 <= i < runs.len() && 0 <= j < runs.len() ==> (#[trigger] runs[i]).style.italic
        == (#[trigger] runs[j]).style.italic
}

/// Toggling italic twice gives back a paragraph whose runs agree on italic.
pub proof fn lemma_toggle_italic_twice(p: ParaV, value: Seq<char>, lower: Seq<char>, size: Option<u32>)
    requires
        p.runs.len() > 0,
        uniform_italic(p.runs),
    ensures
        style_applied(p, "toggleitalic"@, value, lower, size) matches Ok(q) && style_applied(q, "toggleitalic"@, value, lower, size)
            == Ok::<ParaV, Seq<char>>(p),
{
    lemma_attr_names();
    let b0 = p.runs[0].style.italic;
    let t1 = toggled(p.runs, true);
    assert(t1 == !b0) by {
        if !b0 {
            assert(!p.runs[0].style.italic);
        } else {
            assert forall|j: int| 0 <= j < p.runs.len() implies (#[trigger] p.runs[j]).style.italic by {
                assert(p.runs[j].style.italic == p.runs[0].style.italic);
            }
        }
    }
    let q = with_field(p, StyleField::Italic(t1), true);
    let t2 = toggled(q.runs, true);
    assert(t2 == b0) by {
        if b0 {
            assert(!q.runs[0].style.italic);
        } else {
            assert forall|j: int| 0 <= j < q.runs.len() implies (#[trigger] q.runs[j]).style.italic by {}
        }
    }
    let r = with_field(q, StyleField::Italic(t2), true);
    assert(r.runs =~= p.runs) by {
        assert forall|i: int| 0 <= i < p.runs.len() implies #[trigger] r.runs[i] == p.runs[i] by {
            assert(p.runs[i].style.italic == b0);
            assert(r.runs[i].style == p.runs[i].style);
        }
    }
    assert(r == p);
}

/// Setting a property a second time to the same value changes nothing.
proof fn lemma_with_field_twice(p: ParaV, f: StyleField, make: bool)
    ensures
        with_field(with_field(p, f, make), f, make) == with_field(p, f, make),
{
    let q = with_field(p, f, make);
    let r = with_field(q, f, make);
    assert(r.runs =~= q.runs) by {
        if q.runs.len() > 0 {
            assert forall|i: int| 0 <= i < q.runs.len() implies #[trigger] r.runs[i] == q.runs[i] by {
                assert(r.runs[i].style == q.runs[i].style);
            }
        }
    }
    assert(r == q);
}

/// Setting the size, colour, highlight, font or alignment again to the
/// same value changes nothing more.
pub proof fn lemma_set_style_again(p: ParaV, attr: Seq<char>, value: Seq<char>, lower: Seq<char>, size: Option<u32>)
    requires
        attr == "size"@ || attr == "color"@ || attr == "highlight"@ || attr == "font"@ || attr == "align"@,
    ensures
        style_applied(p, attr, value, lower, size) matches Ok(q) ==> style_applied(q, attr, value, lower, size)
            == Ok::<ParaV, Seq<char>>(q),
{
    lemma_attr_names();
    if attr == "size"@ {
        if let Some(h) = size {
            lemma_with_field_twice(p, StyleField::Size(h), true);
        }
    } else if attr == "color"@ {
        if let Ok(c) = color_result(lower, value) {
            lemma_with_field_twice(p, StyleField::Color(c), c is Some);
        }
    } else if attr == "highlight"@ {
        let c = if lower == "none"@ { None } else { Some(trim(value)) };
        lemma_with_field_twice(p, StyleField::Highlight(c), c is Some);
    } else if attr == "font"@ {
        let t = trim(value);
        let c = if t.len() == 0 || ascii_ci_eq(t, "none"@) { None } else { Some(t) };
        lemma_with_field_twice(p, StyleField::Font(c), c is Some);
    }
}

/// A text without the separator splits into one piece.
proof fn lemma_split_plain(s: Seq<char>, sep: char, cur: Seq<char>)
    requires
        forall|i: int| 0 <= i < s.len() ==> s[i] != sep,
    ensures
        split_from(s, sep, cur) == seq![cur + s],
    decreases s.len(),
{
    if s.len() > 0 {
        lemma_split_plain(s.drop_first(), sep, cur.push(s[0]));
        assert(cur.push(s[0]) + s.drop_first() =~= cur + s);
    } else {
        assert(cur + s =~= cur);
    }
}

/// Styling one paragraph of an unchanged document, named by an identifier
/// that no other paragraph has, then rebuilding the document rewrites that
/// paragraph alone: every other byte of the original XML is kept.
pub proof fn lemma_style_one_rewrites_one(
    d: DocV,
    para_id: Seq<char>,
    attr: Seq<char>,
    value: Seq<char>,
    lower: Seq<char>,
    size: Option<u32>,
)
    requires
        nothing_changed(d),
        paragraphs_in_order(d),
        d.paragraphs.len() <= usize::MAX,
        forall|i: int| 0 <= i < para_id.len() ==> para_id[i] != ',',
        trim(para_id) == para_id,
        forall|i: int, j: int|
            0 <= i < j < d.paragraphs.len() && (#[trigger] d.paragraphs[i]).id == para_id ==> (
            #[trigger] d.paragraphs[j]).id != para_id,
    ensures
        style_set(d, para_id, attr, value, lower, size) matches Ok(d2) ==> {
            let k = find_para(d.paragraphs, para_id)->0 as int;
            rebuild_bytes(d2) == d.original_xml.take(d.paragraphs[k].byte_range.0 as int) + para_bytes(d2, k)
                + d.original_xml.skip(d.paragraphs[k].byte_range.1 as int)
        },
{
    lemma_style_set_frame(d, para_id, attr, value, lower, size);
    lemma_find_para(d.paragraphs, para_id);
    lemma_split_plain(para_id, ',', Seq::empty());
    let pieces = split_on(para_id, ',');
    assert(pieces =~= seq![para_id]) by {
        assert(Seq::<char>::empty() + para_id =~= para_id);
    }
    if style_set(d, para_id, attr, value, lower, size) is Ok {
        let d2 = style_set(d, para_id, attr, value, lower, size)->Ok_0;
        assert(pieces.drop_first() =~= Seq::<Seq<char>>::empty());
        assert(find_para(d.paragraphs, para_id) is Some) by {
            let none = Seq::<Seq<char>>::empty();
            assert(style_ids(d.paragraphs, none, attr, value, lower, size, false) == Ok::<(Seq<ParaV>, bool), Seq<char>>(
                (d.paragraphs, false),
            ));
            assert(trim(pieces[0]) == para_id);
        }
        let k = find_para(d.paragraphs, para_id)->0 as int;
        assert forall|j: int| 0 <= j < d2.paragraphs.len() && j != k implies !(#[trigger] d2.paragraphs[j]).dirty by {
            assert(d.paragraphs[k].id == para_id);
            if j < k {
                assert(d.paragraphs[j].id != para_id);
            } else {
                assert(d.paragraphs[j].id != para_id);
            }
            if names_id(pieces, d.paragraphs[j].id) {
                let m = choose|m: int| 0 <= m < pieces.len() && trim(#[trigger] pieces[m]) == d.paragraphs[j].id;
                assert(pieces[m] == para_id);
            }
            assert(!d.paragraphs[j].dirty);
        }
        assert(only_changed(d2, k));
        assert(paragraphs_in_order(d2)) by {
            assert forall|a: int, b: int| 0 <= a < b < d2.paragraphs.len() implies (#[trigger] d2.paragraphs[a]).byte_range.1
                <= (#[trigger] d2.paragraphs[b]).byte_range.0 by {
                assert(d.paragraphs[a].byte_range.1 <= d.paragraphs[b].byte_range.0);
            }
            assert forall|a: int| 0 <= a < d2.paragraphs.len() implies d2.body_inner_range.0 <= (
            #[trigger] d2.paragraphs[a]).byte_range.0 <= d2.paragraphs[a].byte_range.1 <= d2.body_inner_range.1 by {
                assert(d.body_inner_range.0 <= d.paragraphs[a].byte_range.0 <= d.paragraphs[a].byte_range.1
                    <= d.body_inner_range.1);
            }
        }
        lemma_rebuild_one_changed(d2, k);
    }
}

/// The style attributes that can be set.
pub open spec fn known_attr(attr: Seq<char>) -> bool {
    attr == "togglebold"@ || attr == "toggleitalic"@ || attr == "size"@ || attr == "color"@ || attr == "highlight"@
        || attr == "font"@ || attr == "indent"@ || attr == "align"@ || attr == "ilvl"@
}

/// Setting a style attribute fails exactly when the attribute is unknown,
/// or its value does not read (a size that is no number, a colour that is
/// none, no name and no six hexadecimal digits, an indent or list level
/// that is no 32-bit integer after an optional sign, an alignment that is
/// none of the names), or a list level is set on a paragraph that is no
/// list item; on failure nothing changes.
pub proof fn lemma_style_errors(p: ParaV, attr: Seq<char>, value: Seq<char>, lower: Seq<char>, size: Option<u32>)
    ensures
        style_applied(p, attr, value, lower, size) is Err <==> {
            ||| !known_attr(attr)
            ||| attr == "size"@ && size is None
            ||| attr == "color"@ && color_result(lower, value) is Err
            ||| attr == "indent"@ && level_change(crate::render::indent_level(p) as i32, trim(value)) is None
            ||| attr == "align"@ && align_value(lower) is None
            ||| attr == "ilvl"@ && (!is_list_item(p) || level_change(
                (match p.num_ilvl {
                    Some(l) => l as i32,
                    None => 0,
                }),
                trim(value),
            ) is None)
        },
{
    lemma_attr_names();
    reveal_strlit("togglebold");
    reveal_strlit("toggleitalic");
    reveal_strlit("size");
    reveal_strlit("color");
    reveal_strlit("highlight");
    reveal_strlit("font");
    reveal_strlit("indent");
    reveal_strlit("align");
    reveal_strlit("ilvl");
}

/// Setting the alignment to one of its names gives the paragraph exactly
/// that alignment (`centre` and `justify` are read as `center` and
/// `both`), and `none` clears it; nothing else of the paragraph changes.
pub proof fn lemma_align_sets_name(p: ParaV, value: Seq<char>, lower: Seq<char>, size: Option<u32>)
    ensures
        lower == "left"@ || lower == "center"@ || lower == "right"@ || lower == "both"@ ==> style_applied(
            p,
            "align"@,
            value,
            lower,
            size,
        ) == Ok::<ParaV, Seq<char>>(ParaV { alignment: Some(lower), ..p }),
        lower == "centre"@ ==> style_applied(p, "align"@, value, lower, size) == Ok::<ParaV, Seq<char>>(
            ParaV { alignment: Some("center"@), ..p },
        ),
        lower == "justify"@ ==> style_applied(p, "align"@, value, lower, size) == Ok::<ParaV, Seq<char>>(
            ParaV { alignment: Some("both"@), ..p },
        ),
        lower == "none"@ ==> style_applied(p, "align"@, value, lower, size) == Ok::<ParaV, Seq<char>>(
            ParaV { alignment: None, ..p },
        ),
{
    lemma_attr_names();
    reveal_strlit("left");
    reveal_strlit("center");
    reveal_strlit("centre");
    reveal_strlit("right");
    reveal_strlit("both");
    reveal_strlit("justify");
    reveal_strlit("none");
    reveal_strlit("indent");
    reveal_strlit("align");
    assert("both"@[0] != "left"@[0]);
    assert("centre"@[4] != "center"@[4]);
    assert("none"@[0] != "left"@[0] && "none"@[0] != "both"@[0]);
    assert("justify"@.len() != "center"@.len());
}
} // verus!
