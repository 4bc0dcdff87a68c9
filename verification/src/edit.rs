//! Editing single paragraphs from buffer lines: recovering the text a user
//! typed from a rendered line, writing it into a paragraph's runs, and
//! building the XML of a new paragraph that takes its properties from a
//! neighbour.

use vstd::prelude::*;
use crate::model::{
    clone_opt_string, clone_style, opt_str, ParaContext, ParaV, Paragraph, Run, RunStyle, RunV,
    StyleV,
};
use crate::render::{indent_level, is_list};
use crate::text::{
    chars_of, has_prefix, is_whitespace, is_ws, opt_equals, opt_starts_with, push_char, push_dec,
    push_str, same_text, string_of, string_of_range, trim_start, trim_start_str,
};
use crate::xml_emit::{
    bold_piece, esc_attr, esc_text, font_piece, has_ppr, highlight_piece, ind_string, ind_xml,
    italic_piece, jc_string, jc_xml, numpr_string, numpr_xml, push_escaped_attr, push_escaped_text,
    push_font_piece, push_size_piece, size_piece,
};

verus! {

// ---------------------------------------------------------------------
// Text of lines
// ---------------------------------------------------------------------

/// A box-drawing character of the table grid.
pub open spec fn is_box(c: char) -> bool {
    c == '│' || c == '─' || c == '┌' || c == '┐' || c == '└' || c == '┘' || c == '├' || c == '┤'
        || c == '┬' || c == '┴' || c == '┼'
}

/// True for a box-drawing character of the table grid.
pub fn is_box_char(c: char) -> (r: bool)
    ensures
        r == is_box(c),
{
    c == '│' || c == '─' || c == '┌' || c == '┐' || c == '└' || c == '┘' || c == '├' || c == '┤'
        || c == '┬' || c == '┴' || c == '┼'
}

/// `s` without leading grid characters and white space.
pub open spec fn trim_box_start(s: Seq<char>) -> Seq<char>
    decreases s.len(),
{
    if s.len() > 0 && (is_box(s[0]) || is_ws(s[0])) {
        trim_box_start(s.drop_first())
    } else {
        s
    }
}

/// `s` without trailing grid characters and white space.
pub open spec fn trim_box_end(s: Seq<char>) -> Seq<char>
    decreases s.len(),
{
    if s.len() > 0 && (is_box(s.last()) || is_ws(s.last())) {
        trim_box_end(s.drop_last())
    } else {
        s
    }
}

/// `s` without grid characters and white space at either end.
pub open spec fn strip_box(s: Seq<char>) -> Seq<char> {
    trim_box_end(trim_box_start(s))
}

/// `s` without grid characters and white space at either end.
pub fn strip_table_border_chars(s: &str) -> (r: String)
    ensures
        r@ == strip_box(s@),
{
    let v = chars_of(s);
    let mut i: usize = 0;
    assert(v@.skip(0) == v@);
    while i < v.len() && (is_box_char(v[i]) || is_whitespace(v[i]))
        invariant
            i <= v@.len(),
            trim_box_start(v@) == trim_box_start(v@.skip(i as int)),
        decreases v@.len() - i,
    {
        assert(v@.skip(i as int).drop_first() == v@.skip(i + 1));
        i += 1;
    }
    let mut j = v.len();
    assert(v@.skip(i as int) == v@.subrange(i as int, j as int));
    while j > i && (is_box_char(v[j - 1]) || is_whitespace(v[j - 1]))
        invariant
            i <= j <= v@.len(),
            trim_box_end(v@.skip(i as int)) == trim_box_end(v@.subrange(i as int, j as int)),
        decreases j,
    {
        assert(v@.subrange(i as int, j as int).drop_last() == v@.subrange(i as int, j - 1));
        j -= 1;
    }
    string_of_range(v.as_slice(), i, j)
}

/// An ASCII decimal digit.
pub open spec fn is_ascii_digit(c: char) -> bool {
    '0' <= c && c <= '9'
}

/// A character that marks a bullet when a space follows it.
pub open spec fn is_bullet_mark(c: char) -> bool {
    c == '•' || c == '▪' || c == '◆' || c == '✓' || c == '✗' || c == '○' || c == '·' || c == '-'
        || c == '*' || c == '+' || c == 'o'
}

/// The first index at or after `i` that does not hold a digit or a dot.
pub open spec fn digits_dots_end(t: Seq<char>, i: nat) -> nat
    decreases t.len() - i,
{
    if i < t.len() && (is_ascii_digit(t[i as int]) || t[i as int] == '.') {
        digits_dots_end(t, i + 1)
    } else {
        i
    }
}

/// Length of a list marker at the start of `t`: digits and dots followed
/// by a space (`1. `, `2.1 `), or a bullet character and a space; 0 when
/// there is none.
pub open spec fn list_marker_len(t: Seq<char>) -> nat {
    let numbered: nat = if t.len() > 0 && is_ascii_digit(t[0]) {
        let i = digits_dots_end(t, 0);
        if i < t.len() && t[i as int] == ' ' { i + 1 } else { 0 }
    } else {
        0
    };
    if numbered == 0 && t.len() >= 2 && is_bullet_mark(t[0]) && t[1] == ' ' {
        2
    } else {
        numbered
    }
}

/// `text` without leading white space and without a list marker.
pub open spec fn strip_list_marker(text: Seq<char>) -> Seq<char> {
    let t = trim_start(text);
    t.skip(list_marker_len(t) as int)
}

/// Length of the list marker at the start of `v`.
fn list_marker_len_exec(v: &Vec<char>) -> (n: usize)
    ensures
        n == list_marker_len(v@),
        n <= v@.len(),
{
    let mut numbered: usize = 0;
    if v.len() > 0 && '0' <= v[0] && v[0] <= '9' {
        let mut i: usize = 0;
        while i < v.len() && (('0' <= v[i] && v[i] <= '9') || v[i] == '.')
            invariant
                i <= v@.len(),
                digits_dots_end(v@, 0) == digits_dots_end(v@, i as nat),
            decreases v@.len() - i,
        {
            i += 1;
        }
        if i < v.len() && v[i] == ' ' {
            numbered = i + 1;
        }
    }
    if numbered == 0 && v.len() >= 2 {
        let c = v[0];
        if (c == '•' || c == '▪' || c == '◆' || c == '✓' || c == '✗' || c == '○' || c == '·' || c
            == '-' || c == '*' || c == '+' || c == 'o') && v[1] == ' ' {
            return 2;
        }
    }
    numbered
}

/// `text` without leading white space and without a list marker.
pub fn strip_list_prefix(text: &str) -> (r: String)
    ensures
        r@ == strip_list_marker(text@),
{
    let t = trim_start_str(text);
    let v = chars_of(t.as_str());
    let n = list_marker_len_exec(&v);
    assert(v@.skip(n as int) == v@.subrange(n as int, v@.len() as int));
    string_of_range(v.as_slice(), n, v.len())
}

// ---------------------------------------------------------------------
// Text of paragraphs
// ---------------------------------------------------------------------

/// The text of the runs that are not drawings, joined.
pub open spec fn plain_text(runs: Seq<RunV>) -> Seq<char>
    decreases runs.len(),
{
    if runs.len() == 0 {
        Seq::empty()
    } else {
        plain_text(runs.drop_last()) + (if runs.last().is_drawing { Seq::empty() } else {
            runs.last().text
        })
    }
}

/// The text of all runs, joined.
pub open spec fn all_text(runs: Seq<RunV>) -> Seq<char>
    decreases runs.len(),
{
    if runs.len() == 0 {
        Seq::empty()
    } else {
        all_text(runs.drop_last()) + runs.last().text
    }
}

/// Some run is a drawing.
pub open spec fn has_drawing(runs: Seq<RunV>) -> bool {
    exists|i: int| 0 <= i < runs.len() && (#[trigger] runs[i]).is_drawing
}

/// The text of the runs of `p` that are not drawings.
pub fn paragraph_plain_text(p: &Paragraph) -> (s: String)
    ensures
        s@ == plain_text(p@.runs),
{
    let mut s = String::new();
    let mut i: usize = 0;
    while i < p.runs.len()
        invariant
            i <= p.runs@.len(),
            s@ == plain_text(p@.runs.take(i as int)),
        decreases p.runs@.len() - i,
    {
        assert(p@.runs.take(i + 1).drop_last() == p@.runs.take(i as int));
        assert(p@.runs.take(i + 1).last() == p.runs@[i as int]@);
        if !p.runs[i].is_drawing {
            push_str(&mut s, p.runs[i].text.as_str());
        }
        i += 1;
        assert(s@ =~= plain_text(p@.runs.take(i as int)));
    }
    assert(p@.runs.take(i as int) == p@.runs);
    s
}

/// The text of all runs of `p`.
fn paragraph_all_text(p: &Paragraph) -> (s: String)
    ensures
        s@ == all_text(p@.runs),
{
    let mut s = String::new();
    let mut i: usize = 0;
    while i < p.runs.len()
        invariant
            i <= p.runs@.len(),
            s@ == all_text(p@.runs.take(i as int)),
        decreases p.runs@.len() - i,
    {
        assert(p@.runs.take(i + 1).drop_last() == p@.runs.take(i as int));
        assert(p@.runs.take(i + 1).last() == p.runs@[i as int]@);
        push_str(&mut s, p.runs[i].text.as_str());
        i += 1;
    }
    assert(p@.runs.take(i as int) == p@.runs);
    s
}

/// Whether some run of `p` is a drawing.
pub fn paragraph_has_drawing(p: &Paragraph) -> (b: bool)
    ensures
        b == has_drawing(p@.runs),
{
    let mut i: usize = 0;
    while i < p.runs.len()
        invariant
            i <= p.runs@.len(),
            forall|k: int| 0 <= k < i ==> !(#[trigger] p@.runs[k]).is_drawing,
        decreases p.runs@.len() - i,
    {
        if p.runs[i].is_drawing {
            assert(p@.runs[i as int].is_drawing);
            return true;
        }
        i += 1;
    }
    false
}

/// Some character of `s` belongs to the table grid.
pub open spec fn has_box(s: Seq<char>) -> bool {
    exists|i: int| 0 <= i < s.len() && is_box(#[trigger] s[i])
}

/// `needle` occurs in `hay` at position `i`.
pub open spec fn occurs(hay: Seq<char>, needle: Seq<char>, i: int) -> bool {
    0 <= i && i + needle.len() <= hay.len() && hay.subrange(i, i + needle.len()) == needle
}

/// Position of the first occurrence of `needle` in `hay`.
pub open spec fn find_sub(hay: Seq<char>, needle: Seq<char>) -> Option<nat> {
    if exists|i: int| #[trigger] occurs(hay, needle, i) {
        Some(first_sub_from(hay, needle, 0))
    } else {
        None
    }
}

/// The first position at or after `i` where `needle` occurs in `hay`.
pub open spec fn first_sub_from(hay: Seq<char>, needle: Seq<char>, i: nat) -> nat
    decreases hay.len() + 1 - i,
{
    if i + needle.len() > hay.len() || hay.subrange(i as int, (i + needle.len()) as int) == needle {
        i
    } else {
        first_sub_from(hay, needle, i + 1)
    }
}

/// From a position at or before an occurrence, the forward search stops
/// at an occurrence no later than it.
pub proof fn lemma_first_sub_occurs(hay: Seq<char>, needle: Seq<char>, i: nat, k: int)
    requires
        i <= k,
        occurs(hay, needle, k),
    ensures
        first_sub_from(hay, needle, i) <= k,
        occurs(hay, needle, first_sub_from(hay, needle, i) as int),
    decreases k - i,
{
    if !(i + needle.len() > hay.len() || hay.subrange(i as int, (i + needle.len()) as int) == needle) {
        lemma_first_sub_occurs(hay, needle, i + 1, k);
    }
}

/// What the search finds is an occurrence.
pub proof fn lemma_find_sub_occurs(hay: Seq<char>, needle: Seq<char>)
    ensures
        find_sub(hay, needle) matches Some(p) ==> occurs(hay, needle, p as int),
{
    if exists|i: int| #[trigger] occurs(hay, needle, i) {
        let k = choose|i: int| #[trigger] occurs(hay, needle, i);
        lemma_first_sub_occurs(hay, needle, 0, k);
    }
}

/// `needle` occurs in `hay` at position `i`.
pub(crate) fn occurs_at(hay: &Vec<char>, needle: &Vec<char>, i: usize) -> (b: bool)
    requires
        i + needle@.len() <= hay@.len(),
    ensures
        b == (hay@.subrange(i as int, i + needle@.len()) == needle@),
{
    let hl = hay.len();
    let mut k: usize = 0;
    while k < needle.len()
        invariant
            hl == hay@.len(),
            i + needle@.len() <= hay@.len(),
            k <= needle@.len(),
            forall|q: int| 0 <= q < k ==> hay@[i + q] == needle@[q],
        decreases needle@.len() - k,
    {
        if hay[i + k] != needle[k] {
            assert(hay@.subrange(i as int, i + needle@.len())[k as int] != needle@[k as int]);
            return false;
        }
        k += 1;
    }
    assert(hay@.subrange(i as int, i + needle@.len()) =~= needle@);
    true
}

/// The first position of `needle` in `hay`.
pub(crate) fn find_sub_exec(hay: &Vec<char>, needle: &Vec<char>) -> (r: Option<usize>)
    ensures
        match r {
            Some(i) => find_sub(hay@, needle@) == Some(i as nat),
            None => find_sub(hay@, needle@) is None,
        },
{
    if needle.len() > hay.len() {
        assert forall|q: int| !#[trigger] occurs(hay@, needle@, q) by {}
        return None;
    }
    if needle.len() == 0 {
        assert(hay@.subrange(0, 0) =~= needle@);
        assert(occurs(hay@, needle@, 0));
        return Some(0);
    }
    let last = hay.len() - needle.len();
    let mut i: usize = 0;
    while i <= last
        invariant
            last + needle@.len() == hay@.len(),
            needle@.len() >= 1,
            hay@.len() == hay.len(),
            i <= last + 1,
            forall|q: int| 0 <= q < i ==> !#[trigger] occurs(hay@, needle@, q),
            first_sub_from(hay@, needle@, 0) == first_sub_from(hay@, needle@, i as nat),
        decreases last + 1 - i,
    {
        if occurs_at(hay, needle, i) {
            assert(occurs(hay@, needle@, i as int));
            return Some(i);
        }
        i += 1;
    }
    assert forall|q: int| !#[trigger] occurs(hay@, needle@, q) by {
        if 0 <= q < i {
        }
    }
    None
}

// ---------------------------------------------------------------------
// Prefixes of rendered lines
// ---------------------------------------------------------------------

/// Length of the characters that the rendering puts before the text of a
/// paragraph, as estimated from its structure alone: the context marker,
/// the indentation, and the list ordinal (counted as `N.` per level and a
/// space), bullet or heading marker.
pub open spec fn prefix_len_estimate(p: ParaV) -> nat {
    let context_len: nat = match p.context {
        ParaContext::TableCell { .. } => 2,
        ParaContext::Sdt => 2,
        ParaContext::Body => 0,
    };
    let numbered = p.num_id is Some || p.num_ilvl is Some || (p.para_style is Some && has_prefix(
        p.para_style->0,
        "ListNumber"@,
    ));
    let bullet = p.para_style is Some && has_prefix(p.para_style->0, "ListBullet"@);
    let style_len: nat = if numbered && !bullet {
        let ilvl: nat = if p.num_ilvl is Some { p.num_ilvl->0 as nat } else { 0 };
        (ilvl + 1) * 2 + 1
    } else if bullet {
        2
    } else if p.para_style is Some {
        let s = p.para_style->0;
        if s == "Heading1"@ || s == "Title"@ {
            2
        } else if s == "Heading2"@ {
            3
        } else if s == "Heading3"@ {
            4
        } else if s == "Heading4"@ {
            5
        } else if s == "Heading5"@ {
            6
        } else if s == "Heading6"@ {
            7
        } else {
            0
        }
    } else {
        0
    };
    context_len + indent_level(p) * 2 + style_len
}

/// The estimated length of what the rendering puts before the text, as
/// a 64-bit number (it is below 2^35).
pub fn prefix_estimate(p: &Paragraph) -> (n: u64)
    ensures
        n == prefix_len_estimate(p@),
{
    let context_len: u64 = match p.context {
        ParaContext::TableCell { .. } => 2,
        ParaContext::Sdt => 2,
        ParaContext::Body => 0,
    };
    let indent: u64 = match p.indent_twips {
        Some(t) => if t > 0 { (t / 720) as u64 } else { 0 },
        None => 0,
    };
    let numbered = p.num_id.is_some() || p.num_ilvl.is_some() || opt_starts_with(
        &p.para_style,
        "ListNumber",
    );
    let bullet = opt_starts_with(&p.para_style, "ListBullet");
    let style_len: u64 = if numbered && !bullet {
        let ilvl: u64 = match p.num_ilvl {
            Some(l) => l as u64,
            None => 0,
        };
        (ilvl + 1) * 2 + 1
    } else if bullet {
        2
    } else if opt_equals(&p.para_style, "Heading1") || opt_equals(&p.para_style, "Title") {
        2
    } else if opt_equals(&p.para_style, "Heading2") {
        3
    } else if opt_equals(&p.para_style, "Heading3") {
        4
    } else if opt_equals(&p.para_style, "Heading4") {
        5
    } else if opt_equals(&p.para_style, "Heading5") {
        6
    } else if opt_equals(&p.para_style, "Heading6") {
        7
    } else {
        0
    };
    context_len + indent * 2 + style_len
}

/// The estimated length of what the rendering puts before the text.
pub fn render_prefix_len(p: &Paragraph) -> (n: usize)
    requires
        prefix_len_estimate(p@) <= usize::MAX,
    ensures
        n == prefix_len_estimate(p@),
{
    prefix_estimate(p) as usize
}

// ---------------------------------------------------------------------
// Writing text into paragraphs
// ---------------------------------------------------------------------

/// A run of plain text without formatting.
pub open spec fn plain_run(t: Seq<char>) -> RunV {
    RunV {
        text: t,
        style: StyleV {
            bold: false,
            italic: false,
            size_half_pt: None,
            color_hex: None,
            highlight: None,
            font_name: None,
        },
        is_drawing: false,
        rel_id: None,
        byte_range: None,
        media_name: None,
        drawing_xml: None,
    }
}

/// A run of text with the given style.
pub open spec fn styled_run(t: Seq<char>, st: StyleV) -> RunV {
    RunV { style: st, ..plain_run(t) }
}

/// The paragraph after its text was replaced by already clean text `t`:
/// an empty paragraph gets one plain run (when `t` is not empty); a
/// paragraph with a drawing is kept as it is; otherwise its runs become
/// one run with `t` in the style of the first run (none when `t` is
/// empty). Any change marks the paragraph changed.
pub open spec fn clean_text_applied(p: ParaV, t: Seq<char>) -> ParaV {
    if p.runs.len() == 0 {
        if t.len() > 0 {
            ParaV { runs: seq![plain_run(t)], dirty: true, ..p }
        } else {
            p
        }
    } else if has_drawing(p.runs) {
        p
    } else {
        ParaV {
            runs: if t.len() > 0 { seq![styled_run(t, p.runs[0].style)] } else { Seq::empty() },
            dirty: true,
            ..p
        }
    }
}

/// A new run of plain text.
fn new_plain_run(t: String) -> (r: Run)
    ensures
        r@ == plain_run(t@),
{
    Run {
        text: t,
        style: RunStyle {
            bold: false,
            italic: false,
            size_half_pt: None,
            color_hex: None,
            highlight: None,
            font_name: None,
        },
        is_drawing: false,
        rel_id: None,
        byte_range: None,
        media_name: None,
        drawing_xml: None,
    }
}

/// Replaces the text of a paragraph by already clean text (table cells).
pub fn apply_clean_text(p: &mut Paragraph, new_text: &str)
    ensures
        final(p)@ == clean_text_applied(old(p)@, new_text@),
{
    let ghost p0 = p@;
    if p.runs.len() == 0 {
        if !new_text.is_empty() {
            p.runs.push(new_plain_run(new_text.to_owned()));
            p.dirty = true;
            assert(p@.runs =~= seq![plain_run(new_text@)]);
        }
        return;
    }
    if paragraph_has_drawing(p) {
        return;
    }
    let st = clone_style(&p.runs[0].style);
    let mut runs: Vec<Run> = Vec::new();
    if !new_text.is_empty() {
        runs.push(Run { style: st, ..new_plain_run(new_text.to_owned()) });
    }
    p.runs = runs;
    p.dirty = true;
    assert(p@.runs =~= (if new_text@.len() > 0 { seq![styled_run(new_text@, p0.runs[0].style)] } else {
        Seq::empty()
    }));
}

/// The paragraph is centred or right-aligned (its line has padding).
pub open spec fn padded(p: ParaV) -> bool {
    p.alignment is Some && (p.alignment->0 == "center"@ || p.alignment->0 == "centre"@
        || p.alignment->0 == "right"@)
}

/// The text a user typed into the rendered line `new_line` of a paragraph
/// outside tables, whose line read `old_line` before: the alignment
/// padding of centred and right-aligned lines is dropped, then as many
/// characters as preceded the paragraph's text in `old_line` (or, when the
/// text cannot be found there, as the estimated prefix), and finally grid
/// characters and white space at both ends.
pub open spec fn typed_text(p: ParaV, new_line: Seq<char>, old_line: Seq<char>) -> Seq<char> {
    let line = if padded(p) { trim_start(new_line) } else { new_line };
    let original = plain_text(p.runs);
    let prefix: nat = if original.len() > 0 {
        let old_t = if padded(p) { trim_start(old_line) } else { old_line };
        match find_sub(old_t, original) {
            Some(i) => i,
            None => prefix_len_estimate(p),
        }
    } else {
        prefix_len_estimate(p)
    };
    strip_box(line.skip(if prefix <= line.len() { prefix as int } else { line.len() as int }))
}

/// The paragraph after the line `new_line` (that read `old_line`) was
/// edited. Table cells take the text as it is. Otherwise the typed text
/// replaces the paragraph's text, unless its text holds grid characters
/// or it has a drawing: an empty paragraph gets one plain run, a single
/// run takes the text, and with several runs the first takes it and the
/// others are emptied; a paragraph whose text stays the same is kept
/// unchanged.
pub open spec fn text_applied(p: ParaV, new_line: Seq<char>, old_line: Seq<char>) -> ParaV {
    if p.context is TableCell {
        clean_text_applied(p, new_line)
    } else {
        let t = typed_text(p, new_line, old_line);
        if has_box(plain_text(p.runs)) {
            p
        } else if p.runs.len() == 0 {
            if t.len() > 0 { ParaV { runs: seq![plain_run(t)], dirty: true, ..p } } else { p }
        } else if has_drawing(p.runs) {
            p
        } else if p.runs.len() == 1 {
            if p.runs[0].text != t {
                ParaV { runs: seq![RunV { text: t, ..p.runs[0] }], dirty: true, ..p }
            } else {
                p
            }
        } else if all_text(p.runs) == t {
            p
        } else {
            ParaV {
                runs: Seq::new(
                    p.runs.len(),
                    |k: int| if k == 0 { RunV { text: t, ..p.runs[0] } } else { RunV { text: Seq::empty(), ..p.runs[k] } },
                ),
                dirty: true,
                ..p
            }
        }
    }
}

/// Whether the paragraph's line carries alignment padding.
fn padded_exec(p: &Paragraph) -> (b: bool)
    ensures
        b == padded(p@),
{
    opt_equals(&p.alignment, "center") || opt_equals(&p.alignment, "centre") || opt_equals(
        &p.alignment,
        "right",
    )
}

/// Whether some character of `s` belongs to the table grid.
fn has_box_exec(s: &str) -> (b: bool)
    ensures
        b == has_box(s@),
{
    let v = chars_of(s);
    let mut i: usize = 0;
    while i < v.len()
        invariant
            v@ == s@,
            i <= v@.len(),
            forall|k: int| 0 <= k < i ==> !is_box(#[trigger] v@[k]),
        decreases v@.len() - i,
    {
        if is_box_char(v[i]) {
            return true;
        }
        i += 1;
    }
    false
}

/// The text a user typed into a rendered line.
fn typed_text_exec(p: &Paragraph, new_line: &str, old_line: &str) -> (t: String)
    requires
        prefix_len_estimate(p@) <= usize::MAX,
    ensures
        t@ == typed_text(p@, new_line@, old_line@),
{
    let pad = padded_exec(p);
    let line = if pad { trim_start_str(new_line) } else { new_line.to_owned() };
    let original = paragraph_plain_text(p);
    let prefix: usize = if !original.as_str().is_empty() {
        let old_t = if pad { trim_start_str(old_line) } else { old_line.to_owned() };
        let hay = chars_of(old_t.as_str());
        let needle = chars_of(original.as_str());
        match find_sub_exec(&hay, &needle) {
            Some(i) => i,
            None => render_prefix_len(p),
        }
    } else {
        render_prefix_len(p)
    };
    let lv = chars_of(line.as_str());
    let from = if prefix <= lv.len() { prefix } else { lv.len() };
    let raw = string_of_range(lv.as_slice(), from, lv.len());
    assert(raw@ == lv@.skip(from as int));
    strip_table_border_chars(raw.as_str())
}

/// Writes the line a user edited back into its paragraph (see
/// `text_applied`).
pub fn apply_text_to_paragraph(p: &mut Paragraph, new_line: &str, old_line: &str)
    requires
        prefix_len_estimate(old(p)@) <= usize::MAX,
    ensures
        final(p)@ == text_applied(old(p)@, new_line@, old_line@),
{
    let ghost p0 = p@;
    if let ParaContext::TableCell { .. } = p.context {
        apply_clean_text(p, new_line);
        return;
    }
    let t = typed_text_exec(p, new_line, old_line);
    let original = paragraph_plain_text(p);
    if has_box_exec(original.as_str()) {
        return;
    }
    if p.runs.len() == 0 {
        if !t.as_str().is_empty() {
            p.runs.push(new_plain_run(t));
            p.dirty = true;
            assert(p@.runs =~= seq![plain_run(typed_text(p0, new_line@, old_line@))]);
        }
        return;
    }
    if paragraph_has_drawing(p) {
        return;
    }
    if p.runs.len() == 1 {
        if !same_text(p.runs[0].text.as_str(), t.as_str()) {
            let r0 = &p.runs[0];
            let nr = Run {
                text: t,
                style: clone_style(&r0.style),
                is_drawing: r0.is_drawing,
                rel_id: clone_opt_string(&r0.rel_id),
                byte_range: r0.byte_range,
                media_name: clone_opt_string(&r0.media_name),
                drawing_xml: clone_opt_string(&r0.drawing_xml),
            };
            let mut runs: Vec<Run> = Vec::new();
            runs.push(nr);
            p.runs = runs;
            p.dirty = true;
            assert(p@.runs =~= seq![RunV { text: typed_text(p0, new_line@, old_line@), ..p0.runs[0] }]);
        }
        return;
    }
    let concat = paragraph_all_text(p);
    if same_text(concat.as_str(), t.as_str()) {
        return;
    }
    let ghost tv = t@;
    let mut runs: Vec<Run> = Vec::new();
    let r0 = &p.runs[0];
    runs.push(Run {
        text: t,
        style: clone_style(&r0.style),
        is_drawing: r0.is_drawing,
        rel_id: clone_opt_string(&r0.rel_id),
        byte_range: r0.byte_range,
        media_name: clone_opt_string(&r0.media_name),
        drawing_xml: clone_opt_string(&r0.drawing_xml),
    });
    let mut k: usize = 1;
    let n = p.runs.len();
    while k < n
        invariant
            n == p0.runs.len(),
            p@ == p0,
            1 <= k <= n,
            runs@.len() == k,
            forall|q: int| 0 <= q < k ==> (#[trigger] runs@[q])@ == (if q == 0 { RunV { text: tv, ..p0.runs[0] } } else {
                RunV { text: Seq::empty(), ..p0.runs[q] }
            }),
        decreases n - k,
    {
        let r = &p.runs[k];
        runs.push(Run {
            text: String::new(),
            style: clone_style(&r.style),
            is_drawing: r.is_drawing,
            rel_id: clone_opt_string(&r.rel_id),
            byte_range: r.byte_range,
            media_name: clone_opt_string(&r.media_name),
            drawing_xml: clone_opt_string(&r.drawing_xml),
        });
        k += 1;
    }
    p.runs = runs;
    p.dirty = true;
    assert(p@.runs =~= Seq::new(
        p0.runs.len(),
        |q: int| if q == 0 { RunV { text: tv, ..p0.runs[0] } } else { RunV { text: Seq::empty(), ..p0.runs[q] } },
    ));
}

// ---------------------------------------------------------------------
// New paragraphs that take their properties from a neighbour
// ---------------------------------------------------------------------

/// The first run that is not a drawing.
pub open spec fn first_text_run(runs: Seq<RunV>) -> Option<RunV>
    decreases runs.len(),
{
    if runs.len() == 0 {
        None
    } else if !runs[0].is_drawing {
        Some(runs[0])
    } else {
        first_text_run(runs.drop_first())
    }
}

/// `<w:color>` with the colour escaped as an attribute value.
pub open spec fn color_attr_piece(st: StyleV) -> Seq<char> {
    if st.color_hex is Some {
        "<w:color w:val=\""@ + esc_attr(st.color_hex->0) + "\"/>"@
    } else {
        Seq::empty()
    }
}

/// The character properties (inner XML of `<w:rPr>`) of the first run of
/// `p` that is not a drawing; nothing when there is none or it has no
/// formatting.
pub open spec fn first_run_rpr(p: ParaV) -> Seq<char> {
    match first_text_run(p.runs) {
        None => Seq::empty(),
        Some(r) => if r.style.is_plain() {
            Seq::empty()
        } else {
            font_piece(r.style) + bold_piece(r.style) + italic_piece(r.style) + size_piece(r.style)
                + color_attr_piece(r.style) + highlight_piece(r.style)
        },
    }
}

/// The character properties of the first text run of `parent`, for a new
/// paragraph that follows it.
pub fn build_first_run_rpr_inline(parent: &Paragraph) -> (s: String)
    ensures
        s@ == first_run_rpr(parent@),
{
    let mut i: usize = 0;
    assert(parent@.runs.skip(0) == parent@.runs);
    while i < parent.runs.len() && parent.runs[i].is_drawing
        invariant
            i <= parent.runs@.len(),
            first_text_run(parent@.runs) == first_text_run(parent@.runs.skip(i as int)),
        decreases parent.runs@.len() - i,
    {
        assert(parent@.runs.skip(i as int).drop_first() == parent@.runs.skip(i + 1));
        i += 1;
    }
    let mut s = String::new();
    if i == parent.runs.len() {
        return s;
    }
    assert(parent@.runs.skip(i as int)[0] == parent.runs@[i as int]@);
    let st = &parent.runs[i].style;
    if st.is_default() {
        return s;
    }
    push_font_piece(&mut s, st);
    if st.bold {
        push_str(&mut s, "<w:b/>");
    }
    if st.italic {
        push_str(&mut s, "<w:i/>");
    }
    let ghost s1 = s@;
    assert(s1 =~= font_piece(st@) + bold_piece(st@) + italic_piece(st@));
    push_size_piece(&mut s, st);
    if let Some(color) = &st.color_hex {
        push_str(&mut s, "<w:color w:val=\"");
        push_escaped_attr(&mut s, color.as_str());
        push_str(&mut s, "\"/>");
    }
    assert(s@ =~= s1 + size_piece(st@) + color_attr_piece(st@));
    let ghost s2 = s@;
    if let Some(hl) = &st.highlight {
        push_str(&mut s, "<w:highlight w:val=\"");
        push_escaped_attr(&mut s, hl.as_str());
        push_str(&mut s, "\"/>");
    }
    assert(s@ =~= s2 + highlight_piece(st@));
    s
}

/// The text of a new paragraph: without leading white space and, when
/// the paragraph it follows is a list item, without a typed list marker.
pub open spec fn inherited_text(parent: ParaV, text: Seq<char>) -> Seq<char> {
    if is_list(parent) { strip_list_marker(text) } else { trim_start(text) }
}

/// Paragraph properties of a new paragraph: the neighbour's list style,
/// numbering, indentation and alignment.
pub open spec fn inherited_ppr(parent: ParaV) -> Seq<char> {
    if has_ppr(parent) {
        "<w:pPr>"@ + (if parent.para_style is Some && has_prefix(parent.para_style->0, "List"@) {
            "<w:pStyle w:val=\""@ + esc_attr(parent.para_style->0) + "\"/>"@
        } else {
            Seq::empty()
        }) + numpr_xml(parent.num_id, parent.num_ilvl) + ind_xml(parent.indent_twips) + jc_xml(
            parent.alignment,
        ) + "</w:pPr>"@
    } else {
        Seq::empty()
    }
}

/// XML of a new paragraph with text `text` that takes its properties and
/// its character formatting from `parent`; without text it has no run.
pub open spec fn inherited_paragraph_xml(parent: ParaV, text: Seq<char>) -> Seq<char> {
    let clean = inherited_text(parent, text);
    let rpr = first_run_rpr(parent);
    "<w:p>"@ + inherited_ppr(parent) + (if clean.len() == 0 {
        Seq::empty()
    } else if rpr.len() == 0 {
        "<w:r><w:t xml:space=\"preserve\">"@ + esc_text(clean) + "</w:t></w:r>"@
    } else {
        "<w:r><w:rPr>"@ + rpr + "</w:rPr><w:t xml:space=\"preserve\">"@ + esc_text(clean)
            + "</w:t></w:r>"@
    }) + "</w:p>"@
}

/// Paragraph properties of a new paragraph after `parent`.
fn inherited_ppr_string(parent: &Paragraph) -> (s: String)
    ensures
        s@ == inherited_ppr(parent@),
{
    let mut s = String::new();
    let has = parent.para_style.is_some() || parent.alignment.is_some()
        || parent.indent_twips.is_some() || parent.num_id.is_some() || parent.num_ilvl.is_some();
    if has {
        push_str(&mut s, "<w:pPr>");
        if opt_starts_with(&parent.para_style, "List") {
            match &parent.para_style {
                Some(style) => {
                    push_str(&mut s, "<w:pStyle w:val=\"");
                    push_escaped_attr(&mut s, style.as_str());
                    push_str(&mut s, "\"/>");
                },
                None => {},
            }
        }
        let ghost s1 = s@;
        let a = numpr_string(parent.num_id, parent.num_ilvl);
        push_str(&mut s, a.as_str());
        let b = ind_string(parent.indent_twips);
        push_str(&mut s, b.as_str());
        let c = jc_string(&parent.alignment);
        push_str(&mut s, c.as_str());
        push_str(&mut s, "</w:pPr>");
        assert(s@ =~= s1 + numpr_xml(parent@.num_id, parent@.num_ilvl) + ind_xml(parent@.indent_twips)
            + jc_xml(parent@.alignment) + "</w:pPr>"@);
    }
    assert(s@ =~= inherited_ppr(parent@));
    s
}

/// The run of a new paragraph with text `clean`, formatted like the first
/// text run of `parent`.
fn inherited_run_string(parent: &Paragraph, clean: &str) -> (s: String)
    ensures
        s@ == (if clean@.len() == 0 {
            Seq::empty()
        } else if first_run_rpr(parent@).len() == 0 {
            "<w:r><w:t xml:space=\"preserve\">"@ + esc_text(clean@) + "</w:t></w:r>"@
        } else {
            "<w:r><w:rPr>"@ + first_run_rpr(parent@) + "</w:rPr><w:t xml:space=\"preserve\">"@
                + esc_text(clean@) + "</w:t></w:r>"@
        }),
{
    let mut s = String::new();
    if clean.is_empty() {
        return s;
    }
    let rpr = build_first_run_rpr_inline(parent);
    if rpr.as_str().is_empty() {
        push_str(&mut s, "<w:r><w:t xml:space=\"preserve\">");
    } else {
        push_str(&mut s, "<w:r><w:rPr>");
        push_str(&mut s, rpr.as_str());
        push_str(&mut s, "</w:rPr><w:t xml:space=\"preserve\">");
    }
    push_escaped_text(&mut s, clean);
    push_str(&mut s, "</w:t></w:r>");
    s
}

/// The XML of a new paragraph typed next to `parent` (see
/// `inherited_paragraph_xml`).
pub fn build_inherited_paragraph(parent: &Paragraph, text: &str) -> (s: String)
    ensures
        s@ == inherited_paragraph_xml(parent@, text@),
{
    let is_list_parent = parent.num_id.is_some() || parent.num_ilvl.is_some() || opt_starts_with(
        &parent.para_style,
        "List",
    );
    let clean = if is_list_parent { strip_list_prefix(text) } else { trim_start_str(text) };
    assert(clean@ == inherited_text(parent@, text@));
    let mut s = String::new();
    push_str(&mut s, "<w:p>");
    let ppr = inherited_ppr_string(parent);
    push_str(&mut s, ppr.as_str());
    let run = inherited_run_string(parent, clean.as_str());
    push_str(&mut s, run.as_str());
    push_str(&mut s, "</w:p>");
    assert(s@ =~= inherited_paragraph_xml(parent@, text@));
    s
}

} // verus!
