//! The text buffer shown in the editor.
//!
//! Every paragraph outside tables is one line: an optional alignment
//! padding, a `┊ ` marker for content controls, two spaces per indentation
//! step, the list ordinal or a heading marker (`# ` .. `###### `), then the
//! text of the runs, drawings shown as `[IMAGE]`. Tables are drawn as grids
//! with box-drawing borders; each table row takes as many lines as its
//! fullest cell has paragraphs, cells side by side, padded to the width of
//! their column.
//!
//! Beside the text the rendering reports where each styled run stands
//! (line, first and last character, 1-based), which paragraph each line
//! shows, the level of each list line, and the text area of each cell.

use vstd::prelude::*;
use crate::model::{Document, ParaContext, ParaV, Paragraph, Run, RunV, StyleV};
use crate::numbering::{template_prefix, LvlTemplate, NumberingMap};
use vstd::string::StrSliceExecFns;
use crate::text::{
    chars_of, dec, has_prefix, opt_equals, opt_has_prefix, opt_is, opt_starts_with, push_char,
    push_dec, push_str, same_text, string_of,
};

verus! {

// ---------------------------------------------------------------------
// Pieces of lines
// ---------------------------------------------------------------------

/// The paragraph is a list item (numbered, with a level, or in a `List*`
/// style).
pub open spec fn is_list(p: ParaV) -> bool {
    p.num_id is Some || p.num_ilvl is Some || (p.para_style is Some && has_prefix(
        p.para_style->0,
        "List"@,
    ))
}

/// The paragraph is in a table cell.
pub open spec fn is_cell(p: ParaV) -> bool {
    p.context is TableCell
}

/// What a run shows: its text, or `[IMAGE]` for a drawing.
pub open spec fn piece(r: RunV) -> Seq<char> {
    if r.is_drawing { "[IMAGE]"@ } else { r.text }
}

/// Number of characters the runs show.
pub open spec fn runs_len(runs: Seq<RunV>) -> nat
    decreases runs.len(),
{
    if runs.len() == 0 {
        0
    } else {
        runs_len(runs.drop_last()) + piece(runs.last()).len()
    }
}

/// A styled span: buffer line, first and last character (1-based), and
/// the run's formatting.
pub struct MetaV {
    pub line: nat,
    pub cs: nat,
    pub ce: nat,
    pub bold: bool,
    pub italic: bool,
    pub size_half_pt: Option<u32>,
    pub color_hex: Option<Seq<char>>,
    pub font_name: Option<Seq<char>>,
    pub highlight: Option<Seq<char>>,
}

/// The span of a run shown at characters `cs..=ce` of `line`.
pub open spec fn meta_of(st: StyleV, line: nat, cs: nat, ce: nat) -> MetaV {
    MetaV {
        line,
        cs,
        ce,
        bold: st.bold,
        italic: st.italic,
        size_half_pt: st.size_half_pt,
        color_hex: st.color_hex,
        font_name: st.font_name,
        highlight: st.highlight,
    }
}

/// The text of the runs and the spans of their styled, non-empty pieces,
/// when the runs start after `before` characters of line `line`.
pub open spec fn runs_render(runs: Seq<RunV>, before: nat, line: nat) -> (Seq<char>, Seq<MetaV>)
    decreases runs.len(),
{
    if runs.len() == 0 {
        (Seq::empty(), Seq::empty())
    } else {
        let (t, m) = runs_render(runs.drop_last(), before, line);
        let r = runs.last();
        let pc = piece(r);
        if pc.len() == 0 {
            (t, m)
        } else {
            let cs = before + t.len() + 1;
            let ce = before + t.len() + pc.len();
            (t + pc, if r.style.is_plain() { m } else { m.push(meta_of(r.style, line, cs, ce)) })
        }
    }
}

/// The text of rendered runs does not depend on the line number.
pub proof fn lemma_runs_text_any_line(runs: Seq<RunV>, before: nat, l1: nat, l2: nat)
    ensures
        runs_render(runs, before, l1).0 == runs_render(runs, before, l2).0,
    decreases runs.len(),
{
    if runs.len() > 0 {
        lemma_runs_text_any_line(runs.drop_last(), before, l1, l2);
    }
}

/// `n` copies of `c`.
pub open spec fn rep(c: char, n: nat) -> Seq<char> {
    Seq::new(n, |i: int| c)
}

/// Indentation steps of a paragraph: 720 twips each, none when negative.
pub open spec fn indent_level(p: ParaV) -> nat {
    match p.indent_twips {
        Some(t) => if t > 0 { (t / 720) as nat } else { 0 },
        None => 0,
    }
}

/// Two spaces per indentation step.
pub open spec fn indent_prefix(p: ParaV) -> Seq<char> {
    rep(' ', 2 * indent_level(p))
}

/// `┊ ` for a paragraph in a content control.
pub open spec fn context_prefix(p: ParaV) -> Seq<char> {
    if p.context is Sdt { "┊ "@ } else { Seq::empty() }
}

/// The ordinal followed by a space, or the heading or bullet marker of the
/// paragraph's style.
pub open spec fn style_prefix(p: ParaV, ord: Seq<char>) -> Seq<char> {
    if ord.len() > 0 {
        ord + seq![' ']
    } else if p.para_style is Some {
        let s = p.para_style->0;
        if s == "Heading1"@ || s == "Title"@ {
            "# "@
        } else if s == "Heading2"@ {
            "## "@
        } else if s == "Heading3"@ {
            "### "@
        } else if s == "Heading4"@ {
            "#### "@
        } else if s == "Heading5"@ {
            "##### "@
        } else if s == "Heading6"@ {
            "###### "@
        } else if has_prefix(s, "ListBullet"@) {
            "• "@
        } else {
            Seq::empty()
        }
    } else {
        Seq::empty()
    }
}

/// Width of the page in characters, for centred and right-aligned lines.
pub open spec fn page_width() -> nat {
    80
}

/// Spaces before a centred or right-aligned line of `content` characters.
pub open spec fn align_pad(p: ParaV, content: nat) -> nat {
    if p.alignment is Some && (p.alignment->0 == "center"@ || p.alignment->0 == "centre"@) {
        if content < page_width() { ((page_width() - content) / 2) as nat } else { 0 }
    } else if p.alignment is Some && p.alignment->0 == "right"@ {
        if content < page_width() { (page_width() - content) as nat } else { 0 }
    } else {
        0
    }
}

/// Everything a line outside tables shows before the runs.
pub open spec fn line_prefix(p: ParaV, ord: Seq<char>) -> Seq<char> {
    let content = context_prefix(p).len() + indent_prefix(p).len() + style_prefix(p, ord).len()
        + runs_len(p.runs);
    rep(' ', align_pad(p, content)) + context_prefix(p) + indent_prefix(p) + style_prefix(p, ord)
}

/// The line of a paragraph outside tables.
pub open spec fn para_line(p: ParaV, ord: Seq<char>) -> Seq<char> {
    line_prefix(p, ord) + runs_render(p.runs, line_prefix(p, ord).len(), 0).0
}

/// The styled spans of a paragraph outside tables shown on `line`.
pub open spec fn para_metas(p: ParaV, ord: Seq<char>, line: nat) -> Seq<MetaV> {
    runs_render(p.runs, line_prefix(p, ord).len(), line).1
}

/// What a cell shows before the runs: indentation and list marker.
pub open spec fn cell_prefix(p: ParaV, ord: Seq<char>) -> Seq<char> {
    indent_prefix(p) + (if ord.len() > 0 {
        ord + seq![' ']
    } else if p.para_style is Some && has_prefix(p.para_style->0, "ListBullet"@) {
        "• "@
    } else {
        Seq::empty()
    })
}

/// The content of a cell padded to `width`, starting after `before`
/// characters of line `line`, and its styled spans.
pub open spec fn cell_render(p: ParaV, ord: Seq<char>, width: nat, before: nat, line: nat) -> (Seq<char>, Seq<MetaV>) {
    let pre = cell_prefix(p, ord);
    let (t, m) = runs_render(p.runs, before + pre.len(), line);
    let used = pre.len() + t.len();
    let pad: nat = if width > used { (width - used) as nat } else { 0 };
    (pre + t + rep(' ', pad), m)
}

/// A horizontal table border: `left`, then per column `─` for its width
/// and the two padding spaces, `mid` between columns, then `right`.
pub open spec fn border(widths: Seq<usize>, left: char, mid: char, right: char) -> Seq<char> {
    if widths.len() == 0 {
        seq![left] + rep('─', 28) + seq![right]
    } else {
        seq![left] + border_cols(widths, mid, 0) + seq![right]
    }
}

/// The columns `k..` of a border.
pub open spec fn border_cols(widths: Seq<usize>, mid: char, k: nat) -> Seq<char>
    decreases widths.len() - k,
{
    if k >= widths.len() {
        Seq::empty()
    } else {
        rep('─', (widths[k as int] + 2) as nat) + (if k + 1 < widths.len() { seq![mid] } else {
            Seq::empty()
        }) + border_cols(widths, mid, k + 1)
    }
}


// ---------------------------------------------------------------------
// List ordinals
// ---------------------------------------------------------------------

/// The counters of a list are kept per numbering instance (`n<numId>`) or,
/// without one, per paragraph style (`s<style>`).
pub open spec fn list_key(p: ParaV) -> Seq<char> {
    if p.num_id is Some {
        seq!['n'] + dec(p.num_id->0 as nat)
    } else {
        seq!['s'] + (if p.para_style is Some { p.para_style->0 } else { Seq::empty() })
    }
}

/// The list level of a paragraph (0 without one).
pub open spec fn ilvl_of(p: ParaV) -> nat {
    if p.num_ilvl is Some { p.num_ilvl->0 as nat } else { 0 }
}

/// Counters after one more item at level `k`: deeper levels start over,
/// level `k` counts one up, and shallower levels still at 0 show as 1.
pub open spec fn bump_counters(cv: Seq<u32>, k: nat) -> Seq<u32> {
    let n: nat = if cv.len() > k { cv.len() } else { k + 1 };
    Seq::new(
        n,
        |i: int|
            {
                let v: u32 = if i < cv.len() { cv[i] } else { 0 };
                if i < k {
                    if v == 0 { 1u32 } else { v }
                } else if i == k {
                    (v + 1) as u32
                } else {
                    0u32
                }
            },
    )
}

/// Counting an item at level `k` raises that level's counter by one,
/// keeps every shallower counter (showing one that is still 0 as 1), and
/// starts every deeper counter over at 0; so the next item one level
/// deeper is numbered 1.
pub proof fn lemma_counters_restart(cv: Seq<u32>, k: nat)
    requires
        k < cv.len() ==> cv[k as int] < u32::MAX,
    ensures
        bump_counters(cv, k).len() == (if cv.len() > k { cv.len() } else { k + 1 }),
        bump_counters(cv, k)[k as int] == (if k < cv.len() { cv[k as int] + 1 } else { 1 }),
        forall|i: int| k < i < bump_counters(cv, k).len() ==> #[trigger] bump_counters(cv, k)[i] == 0,
        forall|i: int|
            0 <= i < k ==> #[trigger] bump_counters(cv, k)[i] == (if i < cv.len() && cv[i] > 0 { cv[i] } else { 1 }),
        bump_counters(bump_counters(cv, k), k + 1)[k + 1int] == 1,
{
    let nv = bump_counters(cv, k);
    if k + 1 < nv.len() {
        assert(nv[k + 1int] == 0);
    }
}

/// The counters of levels `0..=k` joined with dots: `1.2.1`.
pub open spec fn join_counters(cv: Seq<u32>, k: nat) -> Seq<char>
    decreases k,
{
    if k == 0 {
        dec(cv[0] as nat)
    } else {
        join_counters(cv, (k - 1) as nat) + seq!['.'] + dec(cv[k as int] as nat)
    }
}

/// The ordinal of a list item with counters `cv`: the numbering template
/// of its level when there is one, a bullet for `ListBullet*` styles, and
/// otherwise the counters joined with dots.
pub open spec fn ordinal_text(
    p: ParaV,
    cv: Seq<u32>,
    numbering: Map<(u32, u32), (Seq<char>, Seq<char>)>,
) -> Seq<char> {
    let k = ilvl_of(p);
    if p.num_id is Some {
        if numbering.contains_key((p.num_id->0, k as u32)) {
            template_prefix(numbering[(p.num_id->0, k as u32)], cv)
        } else {
            join_counters(cv, k)
        }
    } else if p.para_style is Some && has_prefix(p.para_style->0, "ListBullet"@) {
        "•"@
    } else {
        join_counters(cv, k)
    }
}

/// The ordinals of paragraphs `i..` (empty for non-list paragraphs), given
/// the counters of the lists so far.
pub open spec fn ordinals_from(
    paras: Seq<ParaV>,
    numbering: Map<(u32, u32), (Seq<char>, Seq<char>)>,
    i: nat,
    counters: Map<Seq<char>, Seq<u32>>,
) -> Seq<Seq<char>>
    decreases paras.len() - i,
{
    if i >= paras.len() {
        Seq::empty()
    } else {
        let p = paras[i as int];
        if !is_list(p) {
            seq![Seq::<char>::empty()] + ordinals_from(paras, numbering, i + 1, counters)
        } else {
            let key = list_key(p);
            let cv = if counters.contains_key(key) { counters[key] } else { Seq::empty() };
            let nv = bump_counters(cv, ilvl_of(p));
            seq![ordinal_text(p, nv, numbering)] + ordinals_from(
                paras,
                numbering,
                i + 1,
                counters.insert(key, nv),
            )
        }
    }
}

/// The ordinal of every paragraph.
pub open spec fn ordinals(paras: Seq<ParaV>, numbering: Map<(u32, u32), (Seq<char>, Seq<char>)>) -> Seq<Seq<char>> {
    ordinals_from(paras, numbering, 0, Map::empty())
}

// ---------------------------------------------------------------------
// Tables
// ---------------------------------------------------------------------

/// Column of a cell paragraph.
pub open spec fn col_of(p: ParaV) -> u32 {
    match p.context {
        ParaContext::TableCell { col_idx, .. } => col_idx,
        _ => 0,
    }
}

/// Row of a cell paragraph.
pub open spec fn row_of(p: ParaV) -> u32 {
    match p.context {
        ParaContext::TableCell { row_idx, .. } => row_idx,
        _ => 0,
    }
}

/// The cell paragraph opens a row.
pub open spec fn first_in_row(p: ParaV) -> bool {
    match p.context {
        ParaContext::TableCell { is_first_in_row, .. } => is_first_in_row,
        _ => false,
    }
}

/// End of the run of cell paragraphs that starts at `s`.
pub open spec fn block_end(paras: Seq<ParaV>, s: nat) -> nat
    decreases paras.len() - s,
{
    if s >= paras.len() || !is_cell(paras[s as int]) {
        s
    } else {
        block_end(paras, s + 1)
    }
}

/// One more than the largest column in `paras[s..e]` (0 if empty).
pub open spec fn ncols(paras: Seq<ParaV>, s: nat, e: nat) -> nat
    decreases e - s,
{
    if s >= e {
        0
    } else {
        let here = col_of(paras[s as int]) as nat + 1;
        let rest = ncols(paras, s + 1, e);
        if here > rest { here } else { rest }
    }
}

/// Longest text among the paragraphs of column `c` in `paras[s..e]`.
pub open spec fn colmax(paras: Seq<ParaV>, s: nat, e: nat, c: nat) -> nat
    decreases e - s,
{
    if s >= e {
        0
    } else {
        let here = if col_of(paras[s as int]) as nat == c { runs_len(paras[s as int].runs) } else { 0 };
        let rest = colmax(paras, s + 1, e, c);
        if here > rest { here } else { rest }
    }
}

/// Widths of the columns of the table starting at paragraph `s`: the
/// longest text of each column, at least 4.
pub open spec fn table_widths(paras: Seq<ParaV>, s: nat) -> Seq<usize> {
    let e = block_end(paras, s);
    Seq::new(
        ncols(paras, s, e),
        |c: int| { let m = colmax(paras, s, e, c as nat); if m < 4 { 4usize } else { m as usize } },
    )
}

/// End of the table row that starts at paragraph `j - 1` with row `r`.
pub open spec fn row_end_from(paras: Seq<ParaV>, r: u32, j: nat) -> nat
    decreases paras.len() - j,
{
    if j >= paras.len() || !is_cell(paras[j as int]) || row_of(paras[j as int]) != r
        || first_in_row(paras[j as int]) {
        j
    } else {
        row_end_from(paras, r, j + 1)
    }
}

/// End of the table row that starts at paragraph `i`.
pub open spec fn row_end(paras: Seq<ParaV>, i: nat) -> nat {
    row_end_from(paras, row_of(paras[i as int]), i + 1)
}

/// Indices of the paragraphs of column `c` among `paras[i..j]`.
pub open spec fn cell_paras(paras: Seq<ParaV>, i: nat, j: nat, c: nat) -> Seq<nat>
    decreases j - i,
{
    if i >= j {
        Seq::empty()
    } else {
        (if col_of(paras[i as int]) as nat == c { seq![i] } else { Seq::empty() }) + cell_paras(
            paras,
            i + 1,
            j,
            c,
        )
    }
}

/// Lines a table row takes: the most paragraphs any of its cells has.
pub open spec fn row_height(paras: Seq<ParaV>, i: nat, j: nat, k: nat) -> nat
    decreases j - k,
{
    if k >= j {
        0
    } else {
        let here = cell_paras(paras, i, j, col_of(paras[k as int]) as nat).len();
        let rest = row_height(paras, i, j, k + 1);
        if here > rest { here } else { rest }
    }
}


// ---------------------------------------------------------------------
// The whole buffer
// ---------------------------------------------------------------------

/// What a rendering reports, as values.
pub struct RenderedV {
    pub text: Seq<char>,
    pub style_meta: Seq<MetaV>,
    pub para_map: Seq<(nat, Seq<char>)>,
    pub list_info: Seq<(nat, u32)>,
    pub cell_map: Seq<(nat, u32, nat, nat, Seq<char>)>,
}

/// State of the rendering after some paragraphs: the text so far, the
/// number of the next line, the reports, whether the last line drawn was
/// inside a table, and where the current table started.
pub struct RState {
    pub out: Seq<char>,
    pub line: nat,
    pub metas: Seq<MetaV>,
    pub para_map: Seq<(nat, Seq<char>)>,
    pub list_info: Seq<(nat, u32)>,
    pub cell_map: Seq<(nat, u32, nat, nat, Seq<char>)>,
    pub in_table: bool,
    pub cur_start: Option<nat>,
}

/// A line of a table row while it is being drawn.
pub struct LineAcc {
    pub text: Seq<char>,
    pub metas: Seq<MetaV>,
    pub list_info: Seq<(nat, u32)>,
    pub cell_map: Seq<(nat, u32, nat, nat, Seq<char>)>,
    pub pid: Option<Seq<char>>,
}

/// The column widths of the current table.
pub open spec fn cur_widths(paras: Seq<ParaV>, st: RState) -> Seq<usize> {
    match st.cur_start {
        Some(s) => table_widths(paras, s),
        None => Seq::empty(),
    }
}

/// The state with one more line of text.
pub open spec fn add_line(st: RState, text: Seq<char>) -> RState {
    RState { out: st.out + text + seq!['\n'], line: st.line + 1, ..st }
}

/// Columns `col..` of the line for position `slot` of the cells of the
/// row `paras[i..j]`.
pub open spec fn row_line_from(
    paras: Seq<ParaV>,
    ords: Seq<Seq<char>>,
    i: nat,
    j: nat,
    widths: Seq<usize>,
    slot: nat,
    line: nat,
    col: nat,
    acc: LineAcc,
) -> LineAcc
    decreases widths.len() - col,
{
    if col >= widths.len() {
        acc
    } else {
        let t1 = acc.text.push(' ');
        let cp = cell_paras(paras, i, j, col);
        let w = widths[col as int] as nat;
        let acc2 = if slot < cp.len() {
            let k = cp[slot as int];
            let p = paras[k as int];
            let (c, m) = cell_render(p, ords[k as int], w, t1.len(), line);
            LineAcc {
                text: t1 + c + " │"@,
                metas: acc.metas + m,
                list_info: if is_list(p) { acc.list_info.push((line, ilvl_of(p) as u32)) } else {
                    acc.list_info
                },
                cell_map: acc.cell_map.push((line, col as u32, t1.len() + 1, t1.len() + w, p.id)),
                pid: if acc.pid is None { Some(p.id) } else { acc.pid },
            }
        } else {
            LineAcc { text: t1 + rep(' ', w) + " │"@, ..acc }
        };
        row_line_from(paras, ords, i, j, widths, slot, line, col + 1, acc2)
    }
}

/// The line for position `slot` of the cells of the row `paras[i..j]`.
pub open spec fn row_line(
    paras: Seq<ParaV>,
    ords: Seq<Seq<char>>,
    i: nat,
    j: nat,
    widths: Seq<usize>,
    slot: nat,
    line: nat,
) -> LineAcc {
    row_line_from(
        paras,
        ords,
        i,
        j,
        widths,
        slot,
        line,
        0,
        LineAcc {
            text: seq!['│'],
            metas: Seq::empty(),
            list_info: Seq::empty(),
            cell_map: Seq::empty(),
            pid: None,
        },
    )
}

/// Lines `slot..n` of the row `paras[i..j]`.
pub open spec fn slots_from(
    paras: Seq<ParaV>,
    ords: Seq<Seq<char>>,
    i: nat,
    j: nat,
    widths: Seq<usize>,
    slot: nat,
    n: nat,
    st: RState,
) -> RState
    decreases n - slot,
{
    if slot >= n {
        st
    } else {
        let acc = row_line(paras, ords, i, j, widths, slot, st.line);
        let st2 = RState {
            metas: st.metas + acc.metas,
            list_info: st.list_info + acc.list_info,
            cell_map: st.cell_map + acc.cell_map,
            para_map: if acc.pid is Some { st.para_map.push((st.line, acc.pid->0)) } else {
                st.para_map
            },
            ..add_line(st, acc.text)
        };
        slots_from(paras, ords, i, j, widths, slot + 1, n, st2)
    }
}

/// The paragraph before `i` is in a table cell.
pub open spec fn prev_in_table(paras: Seq<ParaV>, i: nat) -> bool {
    i > 0 && is_cell(paras[i - 1])
}

/// Drawing the table row that starts at cell paragraph `i`.
pub open spec fn row_step(paras: Seq<ParaV>, ords: Seq<Seq<char>>, i: nat, st: RState) -> RState {
    let st1 = if !prev_in_table(paras, i) {
        RState {
            in_table: true,
            cur_start: Some(i),
            ..add_line(st, border(table_widths(paras, i), '┌', '┬', '┐'))
        }
    } else {
        st
    };
    let j = row_end(paras, i);
    let st2 = if row_of(paras[i as int]) > 0 {
        add_line(st1, border(cur_widths(paras, st1), '├', '┼', '┤'))
    } else {
        st1
    };
    slots_from(paras, ords, i, j, cur_widths(paras, st1), 0, row_height(paras, i, j, i), st2)
}

/// Drawing the paragraph `i`, outside tables.
pub open spec fn para_step(paras: Seq<ParaV>, ords: Seq<Seq<char>>, i: nat, st: RState) -> RState {
    let p = paras[i as int];
    let st1 = if prev_in_table(paras, i) {
        RState {
            in_table: false,
            cur_start: None,
            ..add_line(st, border(cur_widths(paras, st), '└', '┴', '┘'))
        }
    } else {
        st
    };
    let st2 = if is_list(p) {
        RState { list_info: st1.list_info.push((st1.line, ilvl_of(p) as u32)), ..st1 }
    } else {
        st1
    };
    RState {
        metas: st2.metas + para_metas(p, ords[i as int], st2.line),
        para_map: st2.para_map.push((st2.line, p.id)),
        ..add_line(st2, para_line(p, ords[i as int]))
    }
}

/// Drawing paragraphs `i..`.
pub open spec fn render_from(paras: Seq<ParaV>, ords: Seq<Seq<char>>, i: nat, st: RState) -> RState
    decreases paras.len() - i,
{
    if i >= paras.len() {
        st
    } else if !is_cell(paras[i as int]) {
        render_from(paras, ords, i + 1, para_step(paras, ords, i, st))
    } else {
        let j = row_end(paras, i);
        if j <= i || j > paras.len() {
            st
        } else {
            render_from(paras, ords, j, row_step(paras, ords, i, st))
        }
    }
}

/// The initial rendering state: nothing drawn, line 1 next.
pub open spec fn render_start() -> RState {
    RState {
        out: Seq::empty(),
        line: 1,
        metas: Seq::empty(),
        para_map: Seq::empty(),
        list_info: Seq::empty(),
        cell_map: Seq::empty(),
        in_table: false,
        cur_start: None,
    }
}

/// The rendering of a document.
pub open spec fn rendered(
    paras: Seq<ParaV>,
    numbering: Map<(u32, u32), (Seq<char>, Seq<char>)>,
) -> RenderedV {
    let ords = ordinals(paras, numbering);
    let st = render_from(paras, ords, 0, render_start());
    let fin = if st.in_table { add_line(st, border(cur_widths(paras, st), '└', '┴', '┘')) } else {
        st
    };
    RenderedV {
        text: if fin.out.len() > 0 && fin.out.last() == '\n' { fin.out.drop_last() } else { fin.out },
        style_meta: fin.metas,
        para_map: fin.para_map,
        list_info: fin.list_info,
        cell_map: fin.cell_map,
    }
}


/// The lines that the first `n` paragraphs draw when none is in a table,
/// each followed by a line feed.
pub open spec fn body_lines(paras: Seq<ParaV>, ords: Seq<Seq<char>>, n: nat) -> Seq<char>
    decreases n,
{
    if n == 0 || n > paras.len() {
        Seq::empty()
    } else {
        body_lines(paras, ords, (n - 1) as nat) + para_line(paras[n - 1], ords[n - 1]) + seq!['\n']
    }
}

/// Paragraph `k` of the first `n` on buffer line `k + 1`.
pub open spec fn line_map(paras: Seq<ParaV>, n: nat) -> Seq<(nat, Seq<char>)> {
    Seq::new(n, |k: int| ((k + 1) as nat, paras[k].id))
}

/// Drawing paragraphs `i..`, none in a table, after the first `i`.
proof fn lemma_render_body_from(paras: Seq<ParaV>, ords: Seq<Seq<char>>, i: nat, st: RState)
    requires
        i <= paras.len(),
        forall|k: int| 0 <= k < paras.len() ==> !is_cell(#[trigger] paras[k]),
        st.out == body_lines(paras, ords, i),
        st.line == i + 1,
        st.para_map == line_map(paras, i),
        st.cell_map.len() == 0,
        !st.in_table,
    ensures
        render_from(paras, ords, i, st).out == body_lines(paras, ords, paras.len()),
        render_from(paras, ords, i, st).para_map == line_map(paras, paras.len()),
        render_from(paras, ords, i, st).cell_map.len() == 0,
        !render_from(paras, ords, i, st).in_table,
    decreases paras.len() - i,
{
    if i < paras.len() {
        assert(!is_cell(paras[i as int]));
        if i > 0 {
            assert(!is_cell(paras[i - 1]));
        }
        let st2 = para_step(paras, ords, i, st);
        assert(st2.out == body_lines(paras, ords, i + 1));
        assert(st2.para_map =~= line_map(paras, i + 1));
        lemma_render_body_from(paras, ords, i + 1, st2);
    }
}

/// Where no paragraph is in a table, the rendering draws one line per
/// paragraph, in order: paragraph `k` on buffer line `k + 1`, the text
/// being the paragraphs' lines joined by line feeds, and no cells.
pub proof fn lemma_render_body(paras: Seq<ParaV>, numbering: Map<(u32, u32), (Seq<char>, Seq<char>)>)
    requires
        forall|k: int| 0 <= k < paras.len() ==> !is_cell(#[trigger] paras[k]),
    ensures
        rendered(paras, numbering).para_map == line_map(paras, paras.len()),
        rendered(paras, numbering).cell_map.len() == 0,
        rendered(paras, numbering).text == (if paras.len() == 0 {
            Seq::<char>::empty()
        } else {
            body_lines(paras, ordinals(paras, numbering), paras.len()).drop_last()
        }),
{
    let ords = ordinals(paras, numbering);
    assert(render_start().para_map =~= line_map(paras, 0));
    lemma_render_body_from(paras, ords, 0, render_start());
}

/// No character of `s` is a line feed.
pub open spec fn no_lf(s: Seq<char>) -> bool {
    forall|i: int| 0 <= i < s.len() ==> s[i] != '\n'
}

/// Splitting `s`, a separator and `t` gives the pieces of `s` and then
/// those of `t`.
proof fn lemma_split_append(s: Seq<char>, t: Seq<char>, sep: char, cur: Seq<char>)
    ensures
        crate::save::split_from(s + seq![sep] + t, sep, cur) == crate::save::split_from(s, sep, cur)
            + crate::save::split_from(t, sep, Seq::empty()),
    decreases s.len(),
{
    let whole = s + seq![sep] + t;
    if s.len() == 0 {
        assert(whole.drop_first() =~= t);
    } else {
        assert(whole.drop_first() =~= s.drop_first() + seq![sep] + t);
        assert(whole[0] == s[0]);
        if s[0] == sep {
            lemma_split_append(s.drop_first(), t, sep, Seq::empty());
        } else {
            lemma_split_append(s.drop_first(), t, sep, cur.push(s[0]));
        }
    }
}

/// A text without line feeds splits into itself.
proof fn lemma_split_single(s: Seq<char>, cur: Seq<char>)
    requires
        no_lf(s),
    ensures
        crate::save::split_from(s, '\n', cur) == seq![cur + s],
    decreases s.len(),
{
    if s.len() > 0 {
        lemma_split_single(s.drop_first(), cur.push(s[0]));
        assert(cur.push(s[0]) + s.drop_first() =~= cur + s);
    } else {
        assert(cur + s =~= cur);
    }
}

/// What runs show has no line feed when no run's text has one.
proof fn lemma_runs_no_lf(runs: Seq<RunV>, before: nat, line: nat)
    requires
        forall|k: int| 0 <= k < runs.len() && !(#[trigger] runs[k]).is_drawing ==> no_lf(runs[k].text),
    ensures
        no_lf(runs_render(runs, before, line).0),
    decreases runs.len(),
{
    if runs.len() > 0 {
        lemma_runs_no_lf(runs.drop_last(), before, line);
        reveal_strlit("[IMAGE]");
        let t = runs_render(runs.drop_last(), before, line).0;
        let pc = piece(runs.last());
        assert(runs.last() == runs[runs.len() - 1]);
        assert(no_lf(pc));
        assert(no_lf(t + pc));
    }
}

/// A paragraph's line has no line feed when neither its ordinal nor the
/// text of its runs has one.
proof fn lemma_para_line_no_lf(p: ParaV, ord: Seq<char>)
    requires
        no_lf(ord),
        forall|k: int| 0 <= k < p.runs.len() && !(#[trigger] p.runs[k]).is_drawing ==> no_lf(p.runs[k].text),
    ensures
        no_lf(para_line(p, ord)),
{
    reveal_strlit("┊ ");
    reveal_strlit("# ");
    reveal_strlit("## ");
    reveal_strlit("### ");
    reveal_strlit("#### ");
    reveal_strlit("##### ");
    reveal_strlit("###### ");
    reveal_strlit("• ");
    let pre = line_prefix(p, ord);
    lemma_runs_no_lf(p.runs, pre.len(), 0);
    assert(no_lf(style_prefix(p, ord)));
    assert(no_lf(pre));
}

/// The lines of the first `n` paragraphs, split at line feeds, are the
/// paragraphs' lines.
proof fn lemma_split_body_lines(paras: Seq<ParaV>, ords: Seq<Seq<char>>, n: nat)
    requires
        1 <= n <= paras.len(),
        forall|k: int| 0 <= k < n ==> no_lf(#[trigger] para_line(paras[k], ords[k])),
    ensures
        crate::save::split_on(body_lines(paras, ords, n).drop_last(), '\n') == Seq::new(
            n,
            |k: int| para_line(paras[k], ords[k]),
        ),
    decreases n,
{
    let line = para_line(paras[n - 1], ords[n - 1]);
    assert(no_lf(para_line(paras[n - 1], ords[n - 1])));
    assert(body_lines(paras, ords, n).drop_last() =~= body_lines(paras, ords, (n - 1) as nat) + line);
    lemma_split_single(line, Seq::empty());
    assert(Seq::<char>::empty() + line =~= line);
    if n == 1 {
        assert(body_lines(paras, ords, 0) == Seq::<char>::empty());
        assert(Seq::<char>::empty() + line =~= line);
        assert(Seq::new(n, |k: int| para_line(paras[k], ords[k])) =~= seq![line]);
    } else {
        lemma_split_body_lines(paras, ords, (n - 1) as nat);
        let prev = body_lines(paras, ords, (n - 1) as nat);
        assert(prev =~= prev.drop_last() + seq!['\n']);
        assert(prev + line =~= prev.drop_last() + seq!['\n'] + line);
        lemma_split_append(prev.drop_last(), line, '\n', Seq::empty());
        assert(Seq::new(n, |k: int| para_line(paras[k], ords[k])) =~= Seq::new(
            (n - 1) as nat,
            |k: int| para_line(paras[k], ords[k]),
        ) + seq![line]);
    }
}

/// Where no paragraph is in a table and neither the text of a run nor an
/// ordinal holds a line feed, the buffer's lines are the paragraphs'
/// lines: one line per paragraph, in order.
pub proof fn lemma_render_one_line_each(paras: Seq<ParaV>, numbering: Map<(u32, u32), (Seq<char>, Seq<char>)>)
    requires
        paras.len() >= 1,
        forall|k: int| 0 <= k < paras.len() ==> !is_cell(#[trigger] paras[k]),
        forall|k: int, r: int|
            0 <= k < paras.len() && 0 <= r < paras[k].runs.len() && !(#[trigger] paras[k].runs[r]).is_drawing
                ==> no_lf(paras[k].runs[r].text),
        forall|k: int| 0 <= k < paras.len() ==> no_lf(#[trigger] ordinals(paras, numbering)[k]),
    ensures
        crate::save::split_on(rendered(paras, numbering).text, '\n') == Seq::new(
            paras.len(),
            |k: int| para_line(paras[k], ordinals(paras, numbering)[k]),
        ),
        crate::save::split_on(rendered(paras, numbering).text, '\n').len() == paras.len(),
{
    let ords = ordinals(paras, numbering);
    lemma_render_body(paras, numbering);
    assert forall|k: int| 0 <= k < paras.len() implies no_lf(#[trigger] para_line(paras[k], ords[k])) by {
        assert(no_lf(ords[k]));
        assert forall|r: int| 0 <= r < paras[k].runs.len() && !(#[trigger] paras[k].runs[r]).is_drawing implies no_lf(
            paras[k].runs[r].text,
        ) by {}
        lemma_para_line_no_lf(paras[k], ords[k]);
    }
    lemma_split_body_lines(paras, ords, paras.len());
}

// ---------------------------------------------------------------------
// In memory
// ---------------------------------------------------------------------

/// A styled span: buffer line, first and last character (1-based), bold,
/// italic, size in half-points, colour, font, highlight.
pub type StyleSpan = (usize, usize, usize, bool, bool, Option<u32>, Option<String>, Option<String>, Option<String>);

/// The rendering of a document.
pub struct Rendered {
    /// The buffer text, lines separated by `\n`.
    pub text: String,
    /// Where each styled run stands.
    pub style_meta: Vec<StyleSpan>,
    /// `(line, paragraph id)` for each line showing a paragraph (for table
    /// lines, the first cell that has one).
    pub para_map: Vec<(usize, String)>,
    /// `(line, level)` for each list paragraph.
    pub list_info: Vec<(usize, u32)>,
    /// `(line, column, first char, last char, paragraph id)`: the text area
    /// of each cell paragraph shown on a table line.
    pub cell_map: Vec<(usize, u32, usize, usize, String)>,
}

/// The view of a styled span.
pub open spec fn span_view(m: StyleSpan) -> MetaV {
    MetaV {
        line: m.0 as nat,
        cs: m.1 as nat,
        ce: m.2 as nat,
        bold: m.3,
        italic: m.4,
        size_half_pt: m.5,
        color_hex: opt_s(m.6),
        font_name: opt_s(m.7),
        highlight: opt_s(m.8),
    }
}

/// The view of an optional string.
pub open spec fn opt_s(o: Option<String>) -> Option<Seq<char>> {
    match o {
        Some(s) => Some(s@),
        None => None,
    }
}

/// The views of styled spans.
pub open spec fn spans_view(v: Seq<StyleSpan>) -> Seq<MetaV> {
    v.map_values(|m: StyleSpan| span_view(m))
}

/// The views of line/paragraph pairs.
pub open spec fn pmap_view(v: Seq<(usize, String)>) -> Seq<(nat, Seq<char>)> {
    v.map_values(|e: (usize, String)| (e.0 as nat, e.1@))
}

/// The views of list levels.
pub open spec fn linfo_view(v: Seq<(usize, u32)>) -> Seq<(nat, u32)> {
    v.map_values(|e: (usize, u32)| (e.0 as nat, e.1))
}

/// The views of cell areas.
pub open spec fn cmap_view(v: Seq<(usize, u32, usize, usize, String)>) -> Seq<(nat, u32, nat, nat, Seq<char>)> {
    v.map_values(|e: (usize, u32, usize, usize, String)| (e.0 as nat, e.1, e.2 as nat, e.3 as nat, e.4@))
}

impl View for Rendered {
    type V = RenderedV;

    open spec fn view(&self) -> RenderedV {
        RenderedV {
            text: self.text@,
            style_meta: spans_view(self.style_meta@),
            para_map: pmap_view(self.para_map@),
            list_info: linfo_view(self.list_info@),
            cell_map: cmap_view(self.cell_map@),
        }
    }
}

/// The paragraphs of a document as values.
pub open spec fn paras_view(v: Seq<Paragraph>) -> Seq<ParaV> {
    v.map_values(|p: Paragraph| p@)
}

/// Appends the characters of `s`.
fn push_chars(v: &mut Vec<char>, s: &str)
    ensures
        final(v)@ == old(v)@ + s@,
{
    let c = chars_of(s);
    let mut i: usize = 0;
    while i < c.len()
        invariant
            i <= c@.len(),
            v@ == old(v)@ + c@.take(i as int),
        decreases c@.len() - i,
    {
        v.push(c[i]);
        i += 1;
        assert(c@.take(i as int) == c@.take((i - 1) as int).push(c@[i - 1]));
    }
    assert(c@.take(c@.len() as int) == c@);
}

/// Appends the characters of a vector.
fn push_vec(v: &mut Vec<char>, c: &Vec<char>)
    ensures
        final(v)@ == old(v)@ + c@,
{
    let mut i: usize = 0;
    while i < c.len()
        invariant
            i <= c@.len(),
            v@ == old(v)@ + c@.take(i as int),
        decreases c@.len() - i,
    {
        v.push(c[i]);
        i += 1;
        assert(c@.take(i as int) == c@.take((i - 1) as int).push(c@[i - 1]));
    }
    assert(c@.take(c@.len() as int) == c@);
}

/// Appends `n` copies of `c`.
fn push_rep(v: &mut Vec<char>, c: char, n: usize)
    ensures
        final(v)@ == old(v)@ + rep(c, n as nat),
{
    let mut i: usize = 0;
    while i < n
        invariant
            i <= n,
            v@ == old(v)@ + rep(c, i as nat),
        decreases n - i,
    {
        v.push(c);
        i += 1;
        assert(rep(c, i as nat) =~= rep(c, (i - 1) as nat).push(c));
    }
}

/// `runs_len` of a prefix is at most that of the whole.
pub proof fn lemma_runs_len_prefix(runs: Seq<RunV>, k: int)
    requires
        0 <= k <= runs.len(),
    ensures
        runs_len(runs.take(k)) <= runs_len(runs),
    decreases runs.len(),
{
    if k < runs.len() {
        assert(runs.drop_last().take(k) == runs.take(k));
        lemma_runs_len_prefix(runs.drop_last(), k);
    } else {
        assert(runs.take(k) == runs);
    }
}

/// Number of characters a paragraph's runs show (`[IMAGE]` for drawings).
pub fn paragraph_text_length(p: &Paragraph) -> (n: usize)
    requires
        runs_len(p@.runs) <= usize::MAX,
    ensures
        n == runs_len(p@.runs),
{
    let ghost rv = p@.runs;
    let mut total: usize = 0;
    let mut i: usize = 0;
    while i < p.runs.len()
        invariant
            rv == p.runs@.map_values(|r: Run| r@),
            runs_len(rv) <= usize::MAX,
            i <= p.runs@.len(),
            total == runs_len(rv.take(i as int)),
        decreases p.runs@.len() - i,
    {
        let r = &p.runs[i];
        let len = if r.is_drawing {
            proof { reveal_strlit("[IMAGE]"); }
            7
        } else {
            r.text.as_str().unicode_len()
        };
        assert(rv.take(i + 1).drop_last() == rv.take(i as int));
        assert(rv.take(i + 1).last() == r@);
        proof { lemma_runs_len_prefix(rv, i + 1); }
        total = total + len;
        i += 1;
    }
    assert(rv.take(i as int) == rv);
    total
}


/// A copy of an optional string.
fn clone_opt(o: &Option<String>) -> (r: Option<String>)
    ensures
        opt_s(r) == opt_s(*o),
{
    match o {
        Some(s) => Some(s.clone()),
        None => None,
    }
}

/// Appends what the runs show to `line` (shown on buffer line `line_no`),
/// and the spans of their styled pieces to `metas`.
fn render_runs(runs: &Vec<Run>, line: &mut Vec<char>, line_no: usize, metas: &mut Vec<StyleSpan>)
    ensures
        final(line)@ == old(line)@ + runs_render(
            runs@.map_values(|r: Run| r@),
            old(line)@.len(),
            line_no as nat,
        ).0,
        spans_view(final(metas)@) == spans_view(old(metas)@) + runs_render(
            runs@.map_values(|r: Run| r@),
            old(line)@.len(),
            line_no as nat,
        ).1,
{
    let ghost rv = runs@.map_values(|r: Run| r@);
    let ghost base = line@.len();
    let ghost line0 = line@;
    let ghost metas0 = spans_view(metas@);
    let mut i: usize = 0;
    while i < runs.len()
        invariant
            rv == runs@.map_values(|r: Run| r@),
            base == line0.len(),
            i <= runs@.len(),
            line@ == line0 + runs_render(rv.take(i as int), base, line_no as nat).0,
            spans_view(metas@) == metas0 + runs_render(rv.take(i as int), base, line_no as nat).1,
        decreases runs@.len() - i,
    {
        let r = &runs[i];
        assert(rv.take(i + 1).drop_last() == rv.take(i as int));
        assert(rv.take(i + 1).last() == r@);
        let ghost t = runs_render(rv.take(i as int), base, line_no as nat).0;
        let before = line.len();
        if r.is_drawing {
            push_chars(line, "[IMAGE]");
        } else {
            push_chars(line, r.text.as_str());
        }
        let after = line.len();
        assert(line@ == line0 + t + piece(r@));
        if after > before && !r.style.is_default() {
            let ghost m0 = metas@;
            metas.push(
                (
                    line_no,
                    before + 1,
                    after,
                    r.style.bold,
                    r.style.italic,
                    r.style.size_half_pt,
                    clone_opt(&r.style.color_hex),
                    clone_opt(&r.style.font_name),
                    clone_opt(&r.style.highlight),
                ),
            );
            assert(spans_view(metas@) =~= spans_view(m0).push(span_view(metas@.last())));
        }
        i += 1;
    }
    assert(rv.take(i as int) == rv);
}


/// Indentation steps of a paragraph.
fn indent_steps(p: &Paragraph) -> (n: usize)
    ensures
        n == indent_level(p@),
        n <= 0x40_0000,
{
    match p.indent_twips {
        Some(t) => if t > 0 { (t / 720) as usize } else { 0 },
        None => 0,
    }
}

/// The style marker (or ordinal and space) of a line outside tables.
fn style_prefix_exec(p: &Paragraph, ordinal: &String) -> (v: Vec<char>)
    ensures
        v@ == style_prefix(p@, ordinal@),
{
    let mut v: Vec<char> = Vec::new();
    if ordinal.as_str().unicode_len() > 0 {
        push_chars(&mut v, ordinal.as_str());
        v.push(' ');
    } else if opt_equals(&p.para_style, "Heading1") || opt_equals(&p.para_style, "Title") {
        push_chars(&mut v, "# ");
    } else if opt_equals(&p.para_style, "Heading2") {
        push_chars(&mut v, "## ");
    } else if opt_equals(&p.para_style, "Heading3") {
        push_chars(&mut v, "### ");
    } else if opt_equals(&p.para_style, "Heading4") {
        push_chars(&mut v, "#### ");
    } else if opt_equals(&p.para_style, "Heading5") {
        push_chars(&mut v, "##### ");
    } else if opt_equals(&p.para_style, "Heading6") {
        push_chars(&mut v, "###### ");
    } else if opt_starts_with(&p.para_style, "ListBullet") {
        push_chars(&mut v, "• ");
    }
    assert(v@ =~= style_prefix(p@, ordinal@));
    v
}

/// `a + b`, staying at the maximum.
fn sat_add(a: usize, b: usize) -> (r: usize)
    ensures
        r == (if a + b > usize::MAX { usize::MAX as int } else { a + b }),
{
    if a > usize::MAX - b { usize::MAX } else { a + b }
}

/// Draws a paragraph outside tables as line `*buffer_line`: appends the
/// line and `\n` to `out`, its styled spans to `style_meta`, and the line's
/// paragraph to `para_map`.
fn render_paragraph(
    p: &Paragraph,
    ordinal: &String,
    out: &mut Vec<char>,
    buffer_line: &mut usize,
    style_meta: &mut Vec<StyleSpan>,
    para_map: &mut Vec<(usize, String)>,
)
    requires
        runs_len(p@.runs) <= usize::MAX,
        *old(buffer_line) < usize::MAX,
    ensures
        final(out)@ == old(out)@ + para_line(p@, ordinal@) + seq!['\n'],
        *final(buffer_line) == *old(buffer_line) + 1,
        spans_view(final(style_meta)@) == spans_view(old(style_meta)@) + para_metas(
            p@,
            ordinal@,
            *old(buffer_line) as nat,
        ),
        pmap_view(final(para_map)@) == pmap_view(old(para_map)@).push(
            (*old(buffer_line) as nat, p@.id),
        ),
{
    let mut ctx: Vec<char> = Vec::new();
    if let ParaContext::Sdt = p.context {
        push_chars(&mut ctx, "┊ ");
    }
    assert(ctx@ =~= context_prefix(p@));
    let mut ind: Vec<char> = Vec::new();
    let steps = indent_steps(p);
    push_rep(&mut ind, ' ', 2 * steps);
    assert(ind@ =~= indent_prefix(p@));
    let sp = style_prefix_exec(p, ordinal);
    let text_only = paragraph_text_length(p);
    let content = sat_add(sat_add(sat_add(ctx.len(), ind.len()), sp.len()), text_only);
    let center = opt_equals(&p.alignment, "center") || opt_equals(&p.alignment, "centre");
    let right = opt_equals(&p.alignment, "right");
    let pad: usize = if center {
        if content < 80 { (80 - content) / 2 } else { 0 }
    } else if right {
        if content < 80 { 80 - content } else { 0 }
    } else {
        0
    };
    assert(pad == align_pad(p@, ctx@.len() + ind@.len() + sp@.len() + runs_len(p@.runs)));
    let mut line: Vec<char> = Vec::new();
    push_rep(&mut line, ' ', pad);
    push_vec(&mut line, &ctx);
    push_vec(&mut line, &ind);
    push_vec(&mut line, &sp);
    assert(line@ =~= line_prefix(p@, ordinal@));
    render_runs(&p.runs, &mut line, *buffer_line, style_meta);
    proof {
        lemma_runs_text_any_line(p@.runs, line_prefix(p@, ordinal@).len(), *buffer_line as nat, 0);
    }
    push_vec(out, &line);
    out.push('\n');
    let ghost pm0 = para_map@;
    para_map.push((*buffer_line, p.id.clone()));
    assert(pmap_view(para_map@) =~= pmap_view(pm0).push((*buffer_line as nat, p@.id)));
    *buffer_line = *buffer_line + 1;
}

/// Appends the content of a cell paragraph to `line`, padded to
/// `cell_width`, and the spans of its styled runs to `style_meta`.
fn render_cell_content(
    p: &Paragraph,
    ordinal: &String,
    cell_width: usize,
    buffer_line: usize,
    line: &mut Vec<char>,
    style_meta: &mut Vec<StyleSpan>,
)
    ensures
        final(line)@ == old(line)@ + cell_render(
            p@,
            ordinal@,
            cell_width as nat,
            old(line)@.len(),
            buffer_line as nat,
        ).0,
        spans_view(final(style_meta)@) == spans_view(old(style_meta)@) + cell_render(
            p@,
            ordinal@,
            cell_width as nat,
            old(line)@.len(),
            buffer_line as nat,
        ).1,
{
    let start = line.len();
    let steps = indent_steps(p);
    push_rep(line, ' ', 2 * steps);
    if ordinal.as_str().unicode_len() > 0 {
        push_chars(line, ordinal.as_str());
        line.push(' ');
    } else if opt_starts_with(&p.para_style, "ListBullet") {
        push_chars(line, "• ");
    }
    assert(line@ =~= old(line)@ + cell_prefix(p@, ordinal@));
    render_runs(&p.runs, line, buffer_line, style_meta);
    let used = line.len() - start;
    let pad: usize = if cell_width > used { cell_width - used } else { 0 };
    push_rep(line, ' ', pad);
    assert(line@ =~= old(line)@ + cell_render(
        p@,
        ordinal@,
        cell_width as nat,
        old(line)@.len(),
        buffer_line as nat,
    ).0);
}


/// Appends a horizontal table border.
fn push_border(out: &mut Vec<char>, widths: &[usize], left: char, mid: char, right: char)
    ensures
        final(out)@ == old(out)@ + border(widths@, left, mid, right),
{
    out.push(left);
    if widths.len() == 0 {
        push_rep(out, '─', 28);
        out.push(right);
        assert(out@ =~= old(out)@ + border(widths@, left, mid, right));
        return;
    }
    let ghost base = out@;
    let mut k: usize = 0;
    while k < widths.len()
        invariant
            k <= widths@.len(),
            base == old(out)@.push(left),
            out@ + border_cols(widths@, mid, k as nat) == base + border_cols(widths@, mid, 0),
        decreases widths@.len() - k,
    {
        let ghost before = out@;
        let w = widths[k];
        push_rep(out, '─', w);
        out.push('─');
        out.push('─');
        assert(rep('─', (w + 2) as nat) =~= rep('─', w as nat).push('─').push('─'));
        if k + 1 < widths.len() {
            out.push(mid);
        }
        assert(out@ =~= before + (rep('─', (widths@[k as int] + 2) as nat) + (if k + 1 < widths@.len() {
            seq![mid]
        } else {
            Seq::empty()
        })));
        k += 1;
    }
    out.push(right);
    assert(out@ =~= old(out)@ + border(widths@, left, mid, right));
}

/// The context's column, row and row flag.
pub(crate) fn cell_info(p: &Paragraph) -> (r: (bool, u32, u32, bool))
    ensures
        r.0 == is_cell(p@),
        r.1 == col_of(p@),
        r.2 == row_of(p@),
        r.3 == first_in_row(p@),
{
    match p.context {
        ParaContext::TableCell { col_idx, row_idx, is_first_in_row, .. } => (
            true,
            col_idx,
            row_idx,
            is_first_in_row,
        ),
        _ => (false, 0, 0, false),
    }
}

/// End of the run of cell paragraphs starting at `s`.
fn block_end_exec(paras: &Vec<Paragraph>, s: usize) -> (e: usize)
    requires
        s <= paras@.len(),
    ensures
        e == block_end(paras_view(paras@), s as nat),
        s <= e <= paras@.len(),
{
    let ghost pv = paras_view(paras@);
    let mut k = s;
    while k < paras.len() && cell_info(&paras[k]).0
        invariant
            pv == paras_view(paras@),
            s <= k <= paras@.len(),
            block_end(pv, s as nat) == block_end(pv, k as nat),
        decreases paras@.len() - k,
    {
        k += 1;
    }
    k
}

/// The column widths of the table starting at paragraph `s`.
fn compute_table_widths(paras: &Vec<Paragraph>, s: usize) -> (w: Vec<usize>)
    requires
        s <= paras@.len(),
        forall|i: int| 0 <= i < paras@.len() ==> runs_len(#[trigger] paras@[i]@.runs) <= usize::MAX,
        forall|i: int| 0 <= i < paras@.len() ==> col_of(#[trigger] paras@[i]@) < usize::MAX,
    ensures
        w@ == table_widths(paras_view(paras@), s as nat),
{
    let ghost pv = paras_view(paras@);
    let e = block_end_exec(paras, s);
    let mut nc: usize = 0;
    let mut k = e;
    while k > s
        invariant
            pv == paras_view(paras@),
            forall|i: int| 0 <= i < paras@.len() ==> col_of(#[trigger] paras@[i]@) < usize::MAX,
            s <= k <= e <= paras@.len(),
            nc == ncols(pv, k as nat, e as nat),
        decreases k,
    {
        k -= 1;
        assert(pv[k as int] == paras@[k as int]@);
        let here = cell_info(&paras[k]).1 as usize + 1;
        if here > nc {
            nc = here;
        }
    }
    let mut w: Vec<usize> = Vec::new();
    let mut c: usize = 0;
    while c < nc
        invariant
            pv == paras_view(paras@),
            forall|i: int| 0 <= i < paras@.len() ==> runs_len(#[trigger] paras@[i]@.runs) <= usize::MAX,
            s <= e <= paras@.len(),
            e == block_end(pv, s as nat),
            nc == ncols(pv, s as nat, e as nat),
            c <= nc,
            w@.len() == c,
            forall|i: int| 0 <= i < c ==> w@[i] == table_widths(pv, s as nat)[i],
        decreases nc - c,
    {
        let mut m: usize = 0;
        let mut k2 = e;
        while k2 > s
            invariant
                pv == paras_view(paras@),
                forall|i: int| 0 <= i < paras@.len() ==> runs_len(#[trigger] paras@[i]@.runs) <= usize::MAX,
                s <= k2 <= e <= paras@.len(),
                m == colmax(pv, k2 as nat, e as nat, c as nat),
            decreases k2,
        {
            k2 -= 1;
            let p = &paras[k2];
            assert(pv[k2 as int] == p@);
            if cell_info(p).1 as usize == c {
                let len = paragraph_text_length(p);
                if len > m {
                    m = len;
                }
            }
        }
        w.push(if m < 4 { 4 } else { m });
        assert(w@[c as int] == table_widths(pv, s as nat)[c as int]);
        c += 1;
    }
    assert(w@ =~= table_widths(pv, s as nat));
    w
}


/// A row ends after its first paragraph and within the document.
proof fn lemma_row_end_from(paras: Seq<ParaV>, r: u32, j: nat)
    requires
        j <= paras.len(),
    ensures
        j <= row_end_from(paras, r, j) <= paras.len(),
    decreases paras.len() - j,
{
    if !(j >= paras.len() || !is_cell(paras[j as int]) || row_of(paras[j as int]) != r
        || first_in_row(paras[j as int])) {
        lemma_row_end_from(paras, r, j + 1);
    }
}

/// The paragraph continues a table row with row number `r`.
fn continues_row(p: &Paragraph, r: u32) -> (b: bool)
    ensures
        b == (is_cell(p@) && row_of(p@) == r && !first_in_row(p@)),
{
    let (cell, _, row, first) = cell_info(p);
    cell && row == r && !first
}

/// The end of the table row starting at cell paragraph `i`.
fn row_end_exec(paras: &Vec<Paragraph>, i: usize) -> (j: usize)
    requires
        i < paras@.len(),
    ensures
        j == row_end(paras_view(paras@), i as nat),
        i < j <= paras@.len(),
{
    let ghost pv = paras_view(paras@);
    let n = paras.len();
    let r = cell_info(&paras[i]).2;
    assert(pv[i as int] == paras@[i as int]@);
    let mut j = i + 1;
    while j < n && continues_row(&paras[j], r)
        invariant
            pv == paras_view(paras@),
            n == paras@.len(),
            i < j <= paras@.len(),
            r == row_of(pv[i as int]),
            row_end(pv, i as nat) == row_end_from(pv, r, j as nat),
        decreases paras@.len() - j,
    {
        assert(pv[j as int] == paras@[j as int]@);
        j += 1;
    }
    if j < n {
        assert(pv[j as int] == paras@[j as int]@);
    }
    j
}

/// Paragraphs of a column in a row are at most those of the row.
proof fn lemma_cell_paras_len(paras: Seq<ParaV>, i: nat, j: nat, c: nat)
    ensures
        cell_paras(paras, i, j, c).len() <= (if j > i { j - i } else { 0 }),
    decreases j - i,
{
    if i < j {
        lemma_cell_paras_len(paras, i + 1, j, c);
    }
}

/// A row takes at most as many lines as it has paragraphs.
proof fn lemma_row_height(paras: Seq<ParaV>, i: nat, j: nat, k: nat)
    ensures
        row_height(paras, i, j, k) <= (if j > i { j - i } else { 0 }),
    decreases j - k,
{
    if k < j {
        lemma_cell_paras_len(paras, i, j, col_of(paras[k as int]) as nat);
        lemma_row_height(paras, i, j, k + 1);
    }
}

/// The number of lines the row `paras[i..j]` takes.
fn row_height_exec(paras: &Vec<Paragraph>, i: usize, j: usize) -> (n: usize)
    requires
        i < j <= paras@.len(),
    ensures
        n == row_height(paras_view(paras@), i as nat, j as nat, i as nat),
        n <= j - i,
{
    let ghost pv = paras_view(paras@);
    let mut n: usize = 0;
    let mut k = j;
    while k > i
        invariant
            pv == paras_view(paras@),
            i <= k <= j <= paras@.len(),
            n == row_height(pv, i as nat, j as nat, k as nat),
        decreases k,
    {
        k -= 1;
        assert(pv[k as int] == paras@[k as int]@);
        let c = cell_info(&paras[k]).1;
        let mut cnt: usize = 0;
        let mut k2 = j;
        while k2 > i
            invariant
                pv == paras_view(paras@),
                i <= k2 <= j <= paras@.len(),
                cnt == cell_paras(pv, k2 as nat, j as nat, c as nat).len(),
                cnt <= j - k2,
            decreases k2,
        {
            k2 -= 1;
            assert(pv[k2 as int] == paras@[k2 as int]@);
            if cell_info(&paras[k2]).1 == c {
                cnt += 1;
            }
        }
        if cnt > n {
            n = cnt;
        }
    }
    proof { lemma_row_height(pv, i as nat, j as nat, i as nat); }
    n
}

/// The `slot`-th paragraph of column `c` in the row `paras[i..j]`.
fn nth_in_col(paras: &Vec<Paragraph>, i: usize, j: usize, c: usize, slot: usize) -> (r: Option<usize>)
    requires
        i <= j <= paras@.len(),
    ensures
        match r {
            Some(k) => slot < cell_paras(paras_view(paras@), i as nat, j as nat, c as nat).len()
                && k == cell_paras(paras_view(paras@), i as nat, j as nat, c as nat)[slot as int]
                && i <= k < j,
            None => slot >= cell_paras(paras_view(paras@), i as nat, j as nat, c as nat).len(),
        },
{
    let ghost pv = paras_view(paras@);
    let ghost mut found: Seq<nat> = Seq::empty();
    let mut count: usize = 0;
    let mut k = i;
    while k < j
        invariant
            pv == paras_view(paras@),
            i <= k <= j <= paras@.len(),
            count == found.len(),
            count <= slot,
            cell_paras(pv, i as nat, j as nat, c as nat) == found + cell_paras(pv, k as nat, j as nat, c as nat),
            forall|x: int| 0 <= x < found.len() ==> i <= #[trigger] found[x] < k,
        decreases j - k,
    {
        assert(pv[k as int] == paras@[k as int]@);
        if cell_info(&paras[k]).1 as usize == c {
            if count == slot {
                proof { lemma_cell_paras_head(pv, k as nat, j as nat, c as nat); }
                assert((found + cell_paras(pv, k as nat, j as nat, c as nat))[slot as int] == k);
                return Some(k);
            }
            proof {
                assert(found.push(k as nat) + cell_paras(pv, (k + 1) as nat, j as nat, c as nat)
                    =~= found + cell_paras(pv, k as nat, j as nat, c as nat));
                found = found.push(k as nat);
            }
            count += 1;
        } else {
            assert(found + cell_paras(pv, (k + 1) as nat, j as nat, c as nat)
                =~= found + cell_paras(pv, k as nat, j as nat, c as nat));
        }
        k += 1;
    }
    assert(found + cell_paras(pv, j as nat, j as nat, c as nat) =~= found);
    None
}

/// When paragraph `k` is in column `c`, it heads the column's list from `k`.
proof fn lemma_cell_paras_head(paras: Seq<ParaV>, k: nat, j: nat, c: nat)
    requires
        k < j,
        col_of(paras[k as int]) as nat == c,
    ensures
        cell_paras(paras, k, j, c).len() > 0,
        cell_paras(paras, k, j, c)[0] == k,
{
}

// ---------------------------------------------------------------------
// List ordinals, in memory
// ---------------------------------------------------------------------

/// The views of strings.
pub open spec fn strs_view(v: Seq<String>) -> Seq<Seq<char>> {
    v.map_values(|s: String| s@)
}

/// Counters per list key, as an association list: later entries win.
pub open spec fn counters_map(v: Seq<(String, Vec<u32>)>) -> Map<Seq<char>, Seq<u32>>
    decreases v.len(),
{
    if v.len() == 0 {
        Map::empty()
    } else {
        counters_map(v.drop_last()).insert(v.last().0@, v.last().1@)
    }
}

/// Every counter of every list is at most `bound`.
pub open spec fn counters_at_most(m: Map<Seq<char>, Seq<u32>>, bound: nat) -> bool {
    forall|key: Seq<char>, x: int|
        #![trigger m[key][x]]
        m.contains_key(key) && 0 <= x < m[key].len() ==> m[key][x] <= bound
}

/// Every list level of the paragraphs fits in an `i32`.
pub open spec fn levels_in_range(paras: Seq<ParaV>) -> bool {
    forall|i: int| 0 <= i < paras.len() ==> ilvl_of(#[trigger] paras[i]) <= i32::MAX
}

/// The paragraph is a list item.
pub(crate) fn is_list_exec(p: &Paragraph) -> (b: bool)
    ensures
        b == is_list(p@),
{
    p.num_id.is_some() || p.num_ilvl.is_some() || opt_starts_with(&p.para_style, "List")
}

/// The list level of a paragraph.
fn ilvl_exec(p: &Paragraph) -> (k: u32)
    ensures
        k == ilvl_of(p@),
{
    match p.num_ilvl {
        Some(l) => l,
        None => 0,
    }
}

/// The key under which a list's counters are kept.
fn list_key_exec(p: &Paragraph) -> (k: String)
    ensures
        k@ == list_key(p@),
{
    let mut s = String::new();
    match p.num_id {
        Some(n) => {
            push_char(&mut s, 'n');
            push_dec(&mut s, n as u64);
        },
        None => {
            push_char(&mut s, 's');
            match &p.para_style {
                Some(st) => push_str(&mut s, st.as_str()),
                None => {},
            }
        },
    }
    assert(s@ =~= list_key(p@));
    s
}

/// The counters kept under `key`, if any.
fn lookup_counters<'a>(v: &'a Vec<(String, Vec<u32>)>, key: &String) -> (r: Option<&'a Vec<u32>>)
    ensures
        r is Some <==> counters_map(v@).contains_key(key@),
        r is Some ==> r->0@ == counters_map(v@)[key@],
{
    let mut k = v.len();
    assert(v@.take(k as int) == v@);
    while k > 0
        invariant
            k <= v@.len(),
            counters_map(v@).contains_key(key@) == counters_map(v@.take(k as int)).contains_key(
                key@,
            ),
            counters_map(v@.take(k as int)).contains_key(key@) ==> counters_map(v@)[key@]
                == counters_map(v@.take(k as int))[key@],
        decreases k,
    {
        assert(v@.take(k as int).drop_last() == v@.take(k - 1));
        assert(v@.take(k as int).last() == v@[k - 1]);
        if same_text(v[k - 1].0.as_str(), key.as_str()) {
            return Some(&v[k - 1].1);
        }
        k -= 1;
    }
    None
}

/// The counters after one more item at level `k`.
fn bump_counters_exec(cv: &Vec<u32>, k: usize, bound: Ghost<nat>) -> (nv: Vec<u32>)
    requires
        k < usize::MAX,
        bound@ < u32::MAX,
        forall|x: int| 0 <= x < cv@.len() ==> cv@[x] <= bound@,
    ensures
        nv@ == bump_counters(cv@, k as nat),
        forall|x: int| 0 <= x < nv@.len() ==> nv@[x] <= bound@ + 1,
{
    let n = if cv.len() > k { cv.len() } else { k + 1 };
    let mut nv: Vec<u32> = Vec::new();
    let mut i: usize = 0;
    while i < n
        invariant
            n == (if cv@.len() > k { cv@.len() } else { (k + 1) as nat }),
            bound@ < u32::MAX,
            forall|x: int| 0 <= x < cv@.len() ==> cv@[x] <= bound@,
            i <= n,
            nv@.len() == i,
            forall|x: int| 0 <= x < i ==> nv@[x] == bump_counters(cv@, k as nat)[x],
            forall|x: int| 0 <= x < i ==> nv@[x] <= bound@ + 1,
        decreases n - i,
    {
        let v: u32 = if i < cv.len() { cv[i] } else { 0 };
        let x: u32 = if i < k {
            if v == 0 { 1 } else { v }
        } else if i == k {
            v + 1
        } else {
            0
        };
        nv.push(x);
        i += 1;
    }
    assert(nv@ =~= bump_counters(cv@, k as nat));
    nv
}

/// The counters of levels `0..=k` joined with dots.
fn join_counters_exec(cv: &Vec<u32>, k: usize) -> (s: String)
    requires
        k < cv@.len(),
    ensures
        s@ == join_counters(cv@, k as nat),
{
    let mut s = String::new();
    push_dec(&mut s, cv[0] as u64);
    assert(s@ =~= join_counters(cv@, 0));
    let n = cv.len();
    let mut l: usize = 1;
    while l <= k
        invariant
            k < cv@.len(),
            n == cv@.len(),
            1 <= l <= k + 1,
            s@ == join_counters(cv@, (l - 1) as nat),
        decreases k + 1 - l,
    {
        push_char(&mut s, '.');
        push_dec(&mut s, cv[l] as u64);
        assert(s@ =~= join_counters(cv@, l as nat));
        l += 1;
    }
    s
}

/// The ordinal of a list item whose counters are `cv`.
fn ordinal_exec(p: &Paragraph, cv: &Vec<u32>, numbering: &NumberingMap) -> (s: String)
    requires
        ilvl_of(p@) < cv@.len(),
    ensures
        s@ == ordinal_text(p@, cv@, numbering@),
{
    let k = ilvl_exec(p);
    match p.num_id {
        Some(nid) => match numbering.get(nid, k) {
            Some(tpl) => tpl.render(cv.as_slice(), k as usize),
            None => join_counters_exec(cv, k as usize),
        },
        None => {
            if opt_starts_with(&p.para_style, "ListBullet") {
                String::from_str("•")
            } else {
                join_counters_exec(cv, k as usize)
            }
        },
    }
}

/// The ordinal of every paragraph: the list prefix of list items (from the
/// numbering template of their level, a bullet, or the counters joined
/// with dots), empty for the others. Counters are kept per list; an item
/// restarts the deeper levels of its list.
fn compute_ordinals(paras: &Vec<Paragraph>, numbering: &NumberingMap) -> (ords: Vec<String>)
    requires
        paras@.len() < u32::MAX,
        levels_in_range(paras_view(paras@)),
    ensures
        strs_view(ords@) == ordinals(paras_view(paras@), numbering@),
        ords@.len() == paras@.len(),
{
    let ghost pv = paras_view(paras@);
    let ghost nm = numbering@;
    let mut ords: Vec<String> = Vec::new();
    let mut counters: Vec<(String, Vec<u32>)> = Vec::new();
    let mut i: usize = 0;
    assert(strs_view(ords@) + ordinals_from(pv, nm, 0, counters_map(counters@)) =~= ordinals(
        pv,
        nm,
    ));
    while i < paras.len()
        invariant
            pv == paras_view(paras@),
            nm == numbering@,
            paras@.len() < u32::MAX,
            levels_in_range(pv),
            i <= paras@.len(),
            ords@.len() == i,
            strs_view(ords@) + ordinals_from(pv, nm, i as nat, counters_map(counters@))
                == ordinals(pv, nm),
            counters_at_most(counters_map(counters@), i as nat),
        decreases paras@.len() - i,
    {
        let p = &paras[i];
        assert(pv[i as int] == p@);
        let ghost cm = counters_map(counters@);
        let ghost rest = ordinals_from(pv, nm, (i + 1) as nat, cm);
        if !is_list_exec(p) {
            let ghost o0 = strs_view(ords@);
            ords.push(String::new());
            assert(strs_view(ords@) =~= o0.push(Seq::<char>::empty()));
            assert(o0.push(Seq::<char>::empty()) + rest =~= o0 + (seq![Seq::<char>::empty()] + rest));
        } else {
            let key = list_key_exec(p);
            let k = ilvl_exec(p);
            assert(ilvl_of(pv[i as int]) <= i32::MAX);
            let empty: Vec<u32> = Vec::new();
            let cur = match lookup_counters(&counters, &key) {
                Some(cv) => cv,
                None => &empty,
            };
            assert(forall|x: int| 0 <= x < cur@.len() ==> cur@[x] <= i) by {
                if cm.contains_key(key@) {
                    assert forall|x: int| 0 <= x < cur@.len() implies cur@[x] <= i by {
                        assert(cm[key@][x] <= i);
                    }
                }
            }
            let nv = bump_counters_exec(cur, k as usize, Ghost(i as nat));
            let ord = ordinal_exec(p, &nv, numbering);
            let ghost o0 = strs_view(ords@);
            let ghost ordv = ord@;
            ords.push(ord);
            assert(strs_view(ords@) =~= o0.push(ordv));
            let ghost nvv = nv@;
            let ghost c0 = counters@;
            let ghost keyv = key@;
            counters.push((key, nv));
            assert(counters@.drop_last() == c0);
            assert(counters_map(counters@) == cm.insert(keyv, nvv));
            assert(counters_at_most(cm.insert(keyv, nvv), (i + 1) as nat));
            assert(o0.push(ordv) + ordinals_from(pv, nm, (i + 1) as nat, cm.insert(list_key(p@), nvv))
                =~= o0 + (seq![ordv] + ordinals_from(pv, nm, (i + 1) as nat, cm.insert(list_key(p@), nvv))));
        }
        i += 1;
    }
    ords
}

// ---------------------------------------------------------------------
// Drawing, in memory
// ---------------------------------------------------------------------

/// The rendering state in memory.
struct Canvas {
    out: Vec<char>,
    line: usize,
    metas: Vec<StyleSpan>,
    para_map: Vec<(usize, String)>,
    list_info: Vec<(usize, u32)>,
    cell_map: Vec<(usize, u32, usize, usize, String)>,
    in_table: bool,
    cur_start: Option<usize>,
}

/// The view of a rendering state.
spec fn state(c: Canvas) -> RState {
    RState {
        out: c.out@,
        line: c.line as nat,
        metas: spans_view(c.metas@),
        para_map: pmap_view(c.para_map@),
        list_info: linfo_view(c.list_info@),
        cell_map: cmap_view(c.cell_map@),
        in_table: c.in_table,
        cur_start: match c.cur_start {
            Some(s) => Some(s as nat),
            None => None,
        },
    }
}

/// A padded cell is at least as wide as its column.
proof fn lemma_cell_width(p: ParaV, ord: Seq<char>, width: nat, before: nat, line: nat)
    ensures
        cell_render(p, ord, width, before, line).0.len() >= width,
{
}

/// Draws the line for position `slot` of the cells of the row
/// `paras[i..j]`: returns its text and the paragraph it reports, and
/// appends its spans, list levels and cell areas.
fn row_line_exec(
    paras: &Vec<Paragraph>,
    ords: &Vec<String>,
    i: usize,
    j: usize,
    widths: &Vec<usize>,
    slot: usize,
    line_no: usize,
    metas: &mut Vec<StyleSpan>,
    list_info: &mut Vec<(usize, u32)>,
    cell_map: &mut Vec<(usize, u32, usize, usize, String)>,
) -> (r: (Vec<char>, Option<String>))
    requires
        i < j <= paras@.len(),
        ords@.len() == paras@.len(),
    ensures
        r.0@ == row_line(paras_view(paras@), strs_view(ords@), i as nat, j as nat, widths@, slot as nat, line_no as nat).text,
        opt_s(r.1) == row_line(paras_view(paras@), strs_view(ords@), i as nat, j as nat, widths@, slot as nat, line_no as nat).pid,
        spans_view(final(metas)@) == spans_view(old(metas)@) + row_line(
            paras_view(paras@),
            strs_view(ords@),
            i as nat,
            j as nat,
            widths@,
            slot as nat,
            line_no as nat,
        ).metas,
        linfo_view(final(list_info)@) == linfo_view(old(list_info)@) + row_line(
            paras_view(paras@),
            strs_view(ords@),
            i as nat,
            j as nat,
            widths@,
            slot as nat,
            line_no as nat,
        ).list_info,
        cmap_view(final(cell_map)@) == cmap_view(old(cell_map)@) + row_line(
            paras_view(paras@),
            strs_view(ords@),
            i as nat,
            j as nat,
            widths@,
            slot as nat,
            line_no as nat,
        ).cell_map,
{
    let ghost pv = paras_view(paras@);
    let ghost ov = strs_view(ords@);
    let ghost target = row_line(pv, ov, i as nat, j as nat, widths@, slot as nat, line_no as nat);
    let ghost m0 = spans_view(metas@);
    let ghost l0 = linfo_view(list_info@);
    let ghost c0 = cmap_view(cell_map@);
    let mut text: Vec<char> = Vec::new();
    text.push('│');
    let mut pid: Option<String> = None;
    let ghost mut g = LineAcc {
        text: seq!['│'],
        metas: Seq::empty(),
        list_info: Seq::empty(),
        cell_map: Seq::empty(),
        pid: None,
    };
    assert(text@ =~= g.text);
    assert(m0 + g.metas =~= m0);
    assert(l0 + g.list_info =~= l0);
    assert(c0 + g.cell_map =~= c0);
    proof { reveal_strlit(" │"); }
    let mut col: usize = 0;
    while col < widths.len()
        invariant
            pv == paras_view(paras@),
            ov == strs_view(ords@),
            i < j <= paras@.len(),
            ords@.len() == paras@.len(),
            " │"@ == seq![' ', '│'],
            col <= widths@.len(),
            text@ == g.text,
            spans_view(metas@) == m0 + g.metas,
            linfo_view(list_info@) == l0 + g.list_info,
            cmap_view(cell_map@) == c0 + g.cell_map,
            opt_s(pid) == g.pid,
            row_line_from(pv, ov, i as nat, j as nat, widths@, slot as nat, line_no as nat, col as nat, g)
                == target,
        decreases widths@.len() - col,
    {
        let ghost t1 = g.text.push(' ');
        text.push(' ');
        let start = text.len();
        let w = widths[col];
        match nth_in_col(paras, i, j, col, slot) {
            Some(k) => {
                let p = &paras[k];
                assert(pv[k as int] == p@);
                assert(ov[k as int] == ords@[k as int]@);
                let ghost cr = cell_render(p@, ords@[k as int]@, w as nat, t1.len(), line_no as nat);
                let ghost ms = spans_view(metas@);
                render_cell_content(p, &ords[k], w, line_no, &mut text, metas);
                proof { lemma_cell_width(p@, ords@[k as int]@, w as nat, t1.len(), line_no as nat); }
                let after = text.len();
                assert(after >= start + w);
                let end = start + w;
                text.push(' ');
                text.push('│');
                let closed = text.len();
                assert(closed == after + 2);
                let first = start + 1;
                let ghost li = linfo_view(list_info@);
                if is_list_exec(p) {
                    list_info.push((line_no, ilvl_exec(p)));
                    assert(linfo_view(list_info@) =~= li.push((line_no as nat, ilvl_of(p@) as u32)));
                }
                let ghost cmv = cmap_view(cell_map@);
                cell_map.push((line_no, col as u32, first, end, p.id.clone()));
                assert(cmap_view(cell_map@) =~= cmv.push(
                    (line_no as nat, col as u32, t1.len() + 1, t1.len() + w as nat, p@.id),
                ));
                if pid.is_none() {
                    pid = Some(p.id.clone());
                }
                proof {
                    let g2 = LineAcc {
                        text: t1 + cr.0 + " │"@,
                        metas: g.metas + cr.1,
                        list_info: if is_list(p@) { g.list_info.push((line_no as nat, ilvl_of(p@) as u32)) } else {
                            g.list_info
                        },
                        cell_map: g.cell_map.push((line_no as nat, col as u32, t1.len() + 1, t1.len() + w as nat, p@.id)),
                        pid: if g.pid is None { Some(p@.id) } else { g.pid },
                    };
                    assert(text@ =~= g2.text);
                    assert(spans_view(metas@) =~= m0 + g2.metas);
                    assert(linfo_view(list_info@) =~= l0 + g2.list_info);
                    assert(cmap_view(cell_map@) =~= c0 + g2.cell_map);
                    g = g2;
                }
            },
            None => {
                push_rep(&mut text, ' ', w);
                text.push(' ');
                text.push('│');
                proof {
                    let g2 = LineAcc { text: t1 + rep(' ', w as nat) + " │"@, ..g };
                    assert(text@ =~= g2.text);
                    g = g2;
                }
            },
        }
        col += 1;
    }
    (text, pid)
}

/// What the drawing of a document needs of machine limits: line numbers
/// and counters fit their integers, list levels fit an `i32`, and the
/// length of a paragraph's text and the columns of its cell fit a `usize`.
pub open spec fn render_limits(paras: Seq<ParaV>) -> bool {
    &&& paras.len() < u32::MAX
    &&& 3 * paras.len() + 3 <= usize::MAX
    &&& levels_in_range(paras)
    &&& forall|i: int| 0 <= i < paras.len() ==> runs_len(#[trigger] paras[i].runs) <= usize::MAX
    &&& forall|i: int| 0 <= i < paras.len() ==> col_of(#[trigger] paras[i]) < usize::MAX
}

/// Draws paragraph `i`, which is not in a table, closing the table before
/// it if there is one.
fn para_step_exec(
    paras: &Vec<Paragraph>,
    ords: &Vec<String>,
    i: usize,
    widths: &mut Vec<usize>,
    c: &mut Canvas,
)
    requires
        i < paras@.len(),
        ords@.len() == paras@.len(),
        !is_cell(paras_view(paras@)[i as int]),
        old(widths)@ == cur_widths(paras_view(paras@), state(*old(c))),
        old(c).line + 2 <= usize::MAX,
        runs_len(paras@[i as int]@.runs) <= usize::MAX,
    ensures
        state(*final(c)) == para_step(paras_view(paras@), strs_view(ords@), i as nat, state(*old(c))),
        final(widths)@ == cur_widths(paras_view(paras@), state(*final(c))),
        final(c).line <= old(c).line + 2,
{
    let ghost pv = paras_view(paras@);
    let ghost ov = strs_view(ords@);
    let ghost st = state(*c);
    if i > 0 {
        assert(pv[i - 1] == paras@[i - 1]@);
    }
    if i > 0 && cell_info(&paras[i - 1]).0 {
        push_border(&mut c.out, widths.as_slice(), '└', '┴', '┘');
        c.out.push('\n');
        c.line = c.line + 1;
        c.in_table = false;
        c.cur_start = None;
        *widths = Vec::new();
        assert(state(*c).out =~= st.out + border(cur_widths(pv, st), '└', '┴', '┘') + seq!['\n']);
    }
    let ghost st1 = if prev_in_table(pv, i as nat) {
        RState {
            in_table: false,
            cur_start: None,
            ..add_line(st, border(cur_widths(pv, st), '└', '┴', '┘'))
        }
    } else {
        st
    };
    assert(state(*c) == st1);
    assert(widths@ =~= cur_widths(pv, st1));
    let p = &paras[i];
    assert(pv[i as int] == p@);
    assert(ov[i as int] == ords@[i as int]@);
    if is_list_exec(p) {
        let l = c.line;
        let ghost li = linfo_view(c.list_info@);
        c.list_info.push((l, ilvl_exec(p)));
        assert(linfo_view(c.list_info@) =~= li.push((l as nat, ilvl_of(p@) as u32)));
    }
    let ghost st2 = if is_list(p@) {
        RState { list_info: st1.list_info.push((st1.line, ilvl_of(p@) as u32)), ..st1 }
    } else {
        st1
    };
    assert(state(*c) == st2);
    render_paragraph(p, &ords[i], &mut c.out, &mut c.line, &mut c.metas, &mut c.para_map);
    assert(state(*c) == para_step(pv, ov, i as nat, st));
}

/// Draws the table row that starts at cell paragraph `i`, with the top
/// border of its table when the row opens one and the border between rows
/// when it is not the table's first row. Returns where the row ends.
fn row_step_exec(
    paras: &Vec<Paragraph>,
    ords: &Vec<String>,
    i: usize,
    widths: &mut Vec<usize>,
    c: &mut Canvas,
) -> (j: usize)
    requires
        i < paras@.len(),
        ords@.len() == paras@.len(),
        is_cell(paras_view(paras@)[i as int]),
        old(widths)@ == cur_widths(paras_view(paras@), state(*old(c))),
        old(c).line + 2 + (paras@.len() - i) <= usize::MAX,
        forall|k: int| 0 <= k < paras@.len() ==> runs_len(#[trigger] paras@[k]@.runs) <= usize::MAX,
        forall|k: int| 0 <= k < paras@.len() ==> col_of(#[trigger] paras@[k]@) < usize::MAX,
    ensures
        j == row_end(paras_view(paras@), i as nat),
        i < j <= paras@.len(),
        state(*final(c)) == row_step(paras_view(paras@), strs_view(ords@), i as nat, state(*old(c))),
        final(widths)@ == cur_widths(paras_view(paras@), state(*final(c))),
        final(c).line <= old(c).line + 2 + (j - i),
{
    let ghost pv = paras_view(paras@);
    let ghost ov = strs_view(ords@);
    let ghost st = state(*c);
    if i > 0 {
        assert(pv[i - 1] == paras@[i - 1]@);
    }
    if !(i > 0 && cell_info(&paras[i - 1]).0) {
        *widths = compute_table_widths(paras, i);
        push_border(&mut c.out, widths.as_slice(), '┌', '┬', '┐');
        c.out.push('\n');
        c.line = c.line + 1;
        c.in_table = true;
        c.cur_start = Some(i);
        assert(state(*c).out =~= st.out + border(table_widths(pv, i as nat), '┌', '┬', '┐') + seq!['\n']);
    }
    let ghost st1 = if !prev_in_table(pv, i as nat) {
        RState {
            in_table: true,
            cur_start: Some(i as nat),
            ..add_line(st, border(table_widths(pv, i as nat), '┌', '┬', '┐'))
        }
    } else {
        st
    };
    assert(state(*c) == st1);
    assert(widths@ == cur_widths(pv, st1));
    let j = row_end_exec(paras, i);
    assert(pv[i as int] == paras@[i as int]@);
    if cell_info(&paras[i]).2 > 0 {
        push_border(&mut c.out, widths.as_slice(), '├', '┼', '┤');
        c.out.push('\n');
        c.line = c.line + 1;
        assert(state(*c).out =~= st1.out + border(cur_widths(pv, st1), '├', '┼', '┤') + seq!['\n']);
    }
    let ghost st2 = if row_of(pv[i as int]) > 0 {
        add_line(st1, border(cur_widths(pv, st1), '├', '┼', '┤'))
    } else {
        st1
    };
    assert(state(*c) == st2);
    let n = row_height_exec(paras, i, j);
    let line2 = c.line;
    let mut slot: usize = 0;
    while slot < n
        invariant
            pv == paras_view(paras@),
            ov == strs_view(ords@),
            i < j <= paras@.len(),
            ords@.len() == paras@.len(),
            widths@ == cur_widths(pv, st1),
            n <= j - i,
            slot <= n,
            line2 + n <= usize::MAX,
            c.line == line2 + slot,
            slots_from(pv, ov, i as nat, j as nat, widths@, slot as nat, n as nat, state(*c))
                == slots_from(pv, ov, i as nat, j as nat, widths@, 0, n as nat, st2),
            state(*c).in_table == st2.in_table,
            state(*c).cur_start == st2.cur_start,
        decreases n - slot,
    {
        let line_no = c.line;
        let ghost sc = state(*c);
        let (text, pid) = row_line_exec(
            paras,
            ords,
            i,
            j,
            widths,
            slot,
            line_no,
            &mut c.metas,
            &mut c.list_info,
            &mut c.cell_map,
        );
        push_vec(&mut c.out, &text);
        c.out.push('\n');
        let ghost pm = pmap_view(c.para_map@);
        match pid {
            Some(id) => {
                c.para_map.push((line_no, id));
                assert(pmap_view(c.para_map@) =~= pm.push((line_no as nat, opt_s(pid)->0)));
            },
            None => {},
        }
        c.line = c.line + 1;
        proof {
            let acc = row_line(pv, ov, i as nat, j as nat, widths@, slot as nat, sc.line);
            let sn = RState {
                metas: sc.metas + acc.metas,
                list_info: sc.list_info + acc.list_info,
                cell_map: sc.cell_map + acc.cell_map,
                para_map: if acc.pid is Some { sc.para_map.push((sc.line, acc.pid->0)) } else {
                    sc.para_map
                },
                ..add_line(sc, acc.text)
            };
            assert(state(*c).out =~= sn.out);
            assert(state(*c) == sn);
        }
        slot += 1;
    }
    assert(state(*c) == row_step(pv, ov, i as nat, st));
    j
}

/// Draws a document for the editor: one line per paragraph outside tables
/// (alignment padding, content-control marker, indentation, list ordinal
/// or heading marker, then the runs with drawings as `[IMAGE]`), tables as
/// grids with box-drawing borders whose rows take as many lines as their
/// fullest cell has paragraphs; reports the styled spans, the paragraph of
/// each line, the level of each list line and the text area of each cell.
/// List ordinals come from the numbering templates when the item's level
/// has one.
pub fn render(doc: &Document, numbering: &NumberingMap) -> (r: Rendered)
    requires
        render_limits(doc@.paragraphs),
    ensures
        r@ == rendered(doc@.paragraphs, numbering@),
{
    let paras = &doc.paragraphs;
    let ghost pv = paras_view(paras@);
    assert(pv == doc@.paragraphs);
    assert forall|k: int| 0 <= k < paras@.len() implies runs_len(#[trigger] paras@[k]@.runs) <= usize::MAX by {
        assert(pv[k] == paras@[k]@);
    }
    assert forall|k: int| 0 <= k < paras@.len() implies col_of(#[trigger] paras@[k]@) < usize::MAX by {
        assert(pv[k] == paras@[k]@);
    }
    let ords = compute_ordinals(paras, numbering);
    let ghost ov = strs_view(ords@);
    let mut c = Canvas {
        out: Vec::new(),
        line: 1,
        metas: Vec::new(),
        para_map: Vec::new(),
        list_info: Vec::new(),
        cell_map: Vec::new(),
        in_table: false,
        cur_start: None,
    };
    let mut widths: Vec<usize> = Vec::new();
    assert(state(c).out =~= render_start().out);
    assert(state(c).metas =~= render_start().metas);
    assert(state(c).para_map =~= render_start().para_map);
    assert(state(c).list_info =~= render_start().list_info);
    assert(state(c).cell_map =~= render_start().cell_map);
    assert(state(c) == render_start());
    assert(widths@ =~= cur_widths(pv, state(c)));
    let mut i: usize = 0;
    while i < paras.len()
        invariant
            pv == paras_view(paras@),
            ov == strs_view(ords@),
            ords@.len() == paras@.len(),
            3 * paras@.len() + 3 <= usize::MAX,
            forall|k: int| 0 <= k < paras@.len() ==> runs_len(#[trigger] paras@[k]@.runs) <= usize::MAX,
            forall|k: int| 0 <= k < paras@.len() ==> col_of(#[trigger] paras@[k]@) < usize::MAX,
            i <= paras@.len(),
            c.line <= 3 * i + 1,
            widths@ == cur_widths(pv, state(c)),
            render_from(pv, ov, i as nat, state(c)) == render_from(pv, ov, 0, render_start()),
        decreases paras@.len() - i,
    {
        assert(pv[i as int] == paras@[i as int]@);
        if !cell_info(&paras[i]).0 {
            para_step_exec(paras, &ords, i, &mut widths, &mut c);
            i += 1;
        } else {
            let j = row_step_exec(paras, &ords, i, &mut widths, &mut c);
            i = j;
        }
    }
    let ghost st = state(c);
    if c.in_table {
        push_border(&mut c.out, widths.as_slice(), '└', '┴', '┘');
        c.out.push('\n');
        c.line = c.line + 1;
        assert(state(c).out =~= st.out + border(cur_widths(pv, st), '└', '┴', '┘') + seq!['\n']);
    }
    let ghost fin = if st.in_table { add_line(st, border(cur_widths(pv, st), '└', '┴', '┘')) } else {
        st
    };
    assert(state(c) == fin);
    let n = c.out.len();
    if n > 0 && c.out[n - 1] == '\n' {
        c.out.pop();
        assert(c.out@ =~= fin.out.drop_last());
    }
    let text = string_of(c.out.as_slice());
    Rendered {
        text,
        style_meta: c.metas,
        para_map: c.para_map,
        list_info: c.list_info,
        cell_map: c.cell_map,
    }
}

} // verus!
