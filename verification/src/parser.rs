//! Reading the main document part into a [`Document`].
//!
//! The events of the tokenizer are scanned once, in order. Outside a
//! paragraph the scan tracks the body, tables (with their rows and cells)
//! and content controls; each `<w:p>` of the body becomes a paragraph with
//! the context of the structure around it. Inside a paragraph the scan
//! collects paragraph properties, runs with their character properties, and
//! text, until the matching `</w:p>`.

use vstd::prelude::*;
use crate::error::AppError;
use crate::model::{
    Document, InsertPosition, ParaContext, ParaV, Paragraph, Run, RunStyle, RunV, StyleV, DocV,
};
use crate::text::{
    dec, lemma_dec_injective, parse_i32, parse_i32_spec, parse_u32, parse_u32_spec, push_char, push_dec, push_str,
    same_text, to_uppercase, unicode_upper,
};
use crate::xml_events::{
    attr_lookup, attr_val, local_name, local_of, read_all_events, tags_advance, xml_events, PosEvent,
    XmlEvent, XmlTag,
};
use crate::save::{paragraphs_in_order, ranges_ok};
use vstd::slice::slice_to_vec;
use vstd::string::StringExecFns;

verus! {

// ---------------------------------------------------------------------
// The scan as values
// ---------------------------------------------------------------------

/// State of the scan inside one paragraph.
pub struct PScan {
    pub id: Seq<char>,
    pub start: usize,
    pub ctx: ParaContext,
    pub runs: Seq<RunV>,
    pub para_style: Option<Seq<char>>,
    pub alignment: Option<Seq<char>>,
    pub indent: Option<i32>,
    pub num_id: Option<u32>,
    pub num_ilvl: Option<u32>,
    pub depth: i32,
    pub in_ppr: bool,
    pub in_rpr: bool,
    pub in_numpr: bool,
    pub cur: Option<RunV>,
    pub in_text: bool,
    pub text_buf: Seq<char>,
    pub has_drawing: bool,
    pub drawing_depth: i32,
}

/// State of the scan of the document.
pub struct DScan {
    pub in_body: bool,
    pub table_depth: u32,
    pub row_just_started: bool,
    pub sdt_depth: u32,
    pub next_id: nat,
    pub paras: Seq<ParaV>,
    pub body: (usize, usize),
    /// Row and cell counters of the enclosing tables.
    pub tstack: Seq<(u32, u32)>,
    /// Rows started in the current table.
    pub rows: u32,
    /// Cells started in the current row.
    pub cols: u32,
    pub para: Option<PScan>,
}

/// `x + 1`, staying at the maximum.
pub open spec fn inc_u32(x: u32) -> u32 {
    if x < u32::MAX { (x + 1) as u32 } else { x }
}

/// `x + 1`, staying at the maximum.
pub open spec fn inc_i32(x: i32) -> i32 {
    if x < i32::MAX { (x + 1) as i32 } else { x }
}

/// `x - 1` for a positive `x`, else `x`.
pub open spec fn dec_pos_i32(x: i32) -> i32 {
    if x > 0 { (x - 1) as i32 } else { x }
}

/// `x - 1` for a positive `x`, else `x`.
pub open spec fn dec_pos_u32(x: u32) -> u32 {
    if x > 0 { (x - 1) as u32 } else { x }
}

/// An on/off attribute value meaning off.
pub open spec fn is_false(v: Seq<char>) -> bool {
    v == "false"@ || v == "0"@ || v == "off"@
}

/// A style without formatting.
pub open spec fn plain_style() -> StyleV {
    StyleV {
        bold: false,
        italic: false,
        size_half_pt: None,
        color_hex: None,
        highlight: None,
        font_name: None,
    }
}

/// A new, empty text run.
pub open spec fn new_run() -> RunV {
    RunV {
        text: Seq::empty(),
        style: plain_style(),
        is_drawing: false,
        rel_id: None,
        byte_range: None,
        media_name: None,
        drawing_xml: None,
    }
}

/// The current run with its style changed by a character property tag
/// named `l` (one of `b`, `i`, `sz`, `color`, `highlight`, `rFonts`).
pub open spec fn styled(cur: Option<RunV>, l: Seq<char>, t: XmlTag) -> Option<RunV> {
    match cur {
        None => None,
        Some(r) => {
            let st = r.style;
            let val = attr_lookup(t.attrs@, "w:val"@);
            let flag = match val {
                Some(v) => !is_false(v),
                None => true,
            };
            let st2 = if l == "b"@ {
                StyleV { bold: flag, ..st }
            } else if l == "i"@ {
                StyleV { italic: flag, ..st }
            } else if l == "sz"@ {
                match val {
                    Some(v) => StyleV { size_half_pt: parse_u32_spec(v), ..st },
                    None => st,
                }
            } else if l == "color"@ {
                match val {
                    Some(v) => if v != "auto"@ {
                        StyleV { color_hex: Some(unicode_upper(v)), ..st }
                    } else {
                        st
                    },
                    None => st,
                }
            } else if l == "highlight"@ {
                match val {
                    Some(v) => if v != "none"@ {
                        StyleV { highlight: Some(v), ..st }
                    } else {
                        st
                    },
                    None => st,
                }
            } else {
                match attr_lookup(t.attrs@, "w:ascii"@) {
                    Some(n) => StyleV { font_name: Some(n), ..st },
                    None => match attr_lookup(t.attrs@, "w:hAnsi"@) {
                        Some(n) => StyleV { font_name: Some(n), ..st },
                        None => st,
                    },
                }
            };
            Some(RunV { style: st2, ..r })
        },
    }
}

/// A `<w:b>` or `<w:i>` property turns bold or italic off exactly when its
/// `w:val` is `0`, `false` or `off`, and on otherwise, also when it has no
/// value; the rest of the run stays as it was.
pub proof fn lemma_on_off_property(r: RunV, t: XmlTag)
    ensures
        ({
            let v = attr_lookup(t.attrs@, "w:val"@);
            let on = !(v == Some("0"@) || v == Some("false"@) || v == Some("off"@));
            &&& styled(Some(r), "b"@, t) == Some(RunV { style: StyleV { bold: on, ..r.style }, ..r })
            &&& styled(Some(r), "i"@, t) == Some(RunV { style: StyleV { italic: on, ..r.style }, ..r })
        }),
{
    reveal_strlit("b");
    reveal_strlit("i");
    assert("b"@[0] != "i"@[0]);
}

/// A character property tag name.
pub open spec fn is_rpr_name(l: Seq<char>) -> bool {
    l == "b"@ || l == "i"@ || l == "sz"@ || l == "color"@ || l == "highlight"@ || l == "rFonts"@
}

/// The effect of a property tag that a start and an empty tag have alike;
/// `None` when the tag is no such property in its place.
pub open spec fn shared_prop(ps: PScan, l: Seq<char>, t: XmlTag) -> Option<PScan> {
    if l == "pStyle"@ && ps.in_ppr {
        Some(
            match attr_lookup(t.attrs@, "w:val"@) {
                Some(v) => PScan { para_style: Some(v), ..ps },
                None => ps,
            },
        )
    } else if l == "jc"@ && ps.in_ppr {
        Some(
            match attr_lookup(t.attrs@, "w:val"@) {
                Some(v) => PScan { alignment: Some(v), ..ps },
                None => ps,
            },
        )
    } else if l == "ind"@ && ps.in_ppr {
        Some(
            match attr_lookup(t.attrs@, "w:left"@) {
                Some(v) => PScan { indent: parse_i32_spec(v), ..ps },
                None => match attr_lookup(t.attrs@, "w:start"@) {
                    Some(v) => PScan { indent: parse_i32_spec(v), ..ps },
                    None => ps,
                },
            },
        )
    } else if l == "numId"@ && ps.in_numpr {
        Some(
            match attr_lookup(t.attrs@, "w:val"@) {
                Some(v) => PScan { num_id: parse_u32_spec(v), ..ps },
                None => ps,
            },
        )
    } else if l == "ilvl"@ && ps.in_numpr {
        Some(
            match attr_lookup(t.attrs@, "w:val"@) {
                Some(v) => PScan { num_ilvl: parse_u32_spec(v), ..ps },
                None => ps,
            },
        )
    } else if is_rpr_name(l) && ps.in_rpr {
        Some(PScan { cur: styled(ps.cur, l, t), ..ps })
    } else {
        None
    }
}

/// A tag name that marks a drawing, picture or embedded object.
pub open spec fn is_drawing_name(l: Seq<char>) -> bool {
    l == "drawing"@ || l == "pict"@ || l == "object"@
}

/// Effect of a start tag inside a paragraph.
pub open spec fn para_start(ps0: PScan, t: XmlTag) -> PScan {
    let ps = PScan { depth: inc_i32(ps0.depth), ..ps0 };
    let l = local_of(t.name@);
    if l == "pPr"@ {
        PScan { in_ppr: true, ..ps }
    } else if l == "numPr"@ && ps.in_ppr {
        PScan { in_numpr: true, ..ps }
    } else if l == "r"@ {
        PScan { cur: Some(new_run()), has_drawing: false, ..ps }
    } else if l == "rPr"@ {
        PScan { in_rpr: true, ..ps }
    } else if l == "t"@ {
        PScan { in_text: true, ..ps }
    } else if is_drawing_name(l) {
        PScan { has_drawing: true, drawing_depth: inc_i32(ps.drawing_depth), ..ps }
    } else {
        match shared_prop(ps, l, t) {
            Some(p2) => p2,
            None => if ps.drawing_depth > 0 {
                PScan { drawing_depth: inc_i32(ps.drawing_depth), ..ps }
            } else {
                ps
            },
        }
    }
}

/// The current run with one more character.
pub open spec fn cur_push(cur: Option<RunV>, c: char) -> Option<RunV> {
    match cur {
        Some(r) => Some(RunV { text: r.text.push(c), ..r }),
        None => None,
    }
}

/// Effect of an empty tag inside a paragraph.
pub open spec fn para_empty(ps: PScan, t: XmlTag) -> PScan {
    let l = local_of(t.name@);
    match shared_prop(ps, l, t) {
        Some(p2) => p2,
        None => if l == "tab"@ {
            PScan { cur: cur_push(ps.cur, '\t'), ..ps }
        } else if l == "br"@ {
            PScan { cur: cur_push(ps.cur, '\u{2028}'), ..ps }
        } else {
            ps
        },
    }
}

/// Effect of character data inside a paragraph.
pub open spec fn para_text(ps: PScan, r: Result<String, String>) -> Result<PScan, Seq<char>> {
    if ps.in_text && ps.drawing_depth == 0 {
        match r {
            Ok(s) => Ok(PScan { text_buf: ps.text_buf + s@, ..ps }),
            Err(m) => Err("xml error: "@ + m@),
        }
    } else {
        Ok(ps)
    }
}

/// Outcome of an end tag inside a paragraph.
pub enum PEnd {
    Cont(PScan),
    Done(ParaV),
    Fail(Seq<char>),
}

/// A run is kept when it has text, formatting or a drawing.
pub open spec fn keep_run(r: RunV) -> bool {
    r.text.len() > 0 || !r.style.is_plain() || r.is_drawing
}

/// The paragraph a completed scan yields.
pub open spec fn finished_para(ps: PScan, after: usize) -> ParaV {
    ParaV {
        id: ps.id,
        runs: ps.runs,
        para_style: ps.para_style,
        alignment: ps.alignment,
        indent_twips: ps.indent,
        num_id: ps.num_id,
        num_ilvl: ps.num_ilvl,
        byte_range: (ps.start, after),
        dirty: false,
        context: ps.ctx,
    }
}

/// Effect of an end tag inside a paragraph; `after` is the offset after it.
pub open spec fn para_end(ps0: PScan, name: Seq<char>, after: usize) -> PEnd {
    let ps = PScan { depth: (ps0.depth - 1) as i32, ..ps0 };
    let l = local_of(name);
    if l == "p"@ {
        PEnd::Done(finished_para(ps, after))
    } else {
        let ps2 = if l == "pPr"@ {
            PScan { in_ppr: false, ..ps }
        } else if l == "rPr"@ {
            PScan { in_rpr: false, ..ps }
        } else if l == "numPr"@ {
            PScan { in_numpr: false, ..ps }
        } else if l == "t"@ {
            match ps.cur {
                Some(r) => PScan {
                    in_text: false,
                    cur: Some(RunV { text: r.text + ps.text_buf, ..r }),
                    text_buf: Seq::empty(),
                    ..ps
                },
                None => PScan { in_text: false, ..ps },
            }
        } else if l == "r"@ {
            match ps.cur {
                Some(r) => {
                    let run = RunV { is_drawing: ps.has_drawing, ..r };
                    PScan {
                        cur: None,
                        has_drawing: false,
                        runs: if keep_run(run) { ps.runs.push(run) } else { ps.runs },
                        ..ps
                    }
                },
                None => ps,
            }
        } else {
            PScan { drawing_depth: dec_pos_i32(ps.drawing_depth), ..ps }
        };
        if ps2.depth <= 0 {
            PEnd::Fail("Unbalanced XML: closing tag beyond paragraph"@)
        } else {
            PEnd::Cont(ps2)
        }
    }
}

/// The context of a paragraph opened in the current structure.
pub open spec fn context_of(ds: DScan) -> ParaContext {
    if ds.table_depth > 0 {
        ParaContext::TableCell {
            table_depth: ds.table_depth,
            row_idx: dec_pos_u32(ds.rows),
            col_idx: dec_pos_u32(ds.cols),
            is_first_in_row: ds.row_just_started,
            is_last_in_row: false,
        }
    } else if ds.sdt_depth > 0 {
        ParaContext::Sdt
    } else {
        ParaContext::Body
    }
}

/// The identifier of the paragraph with ordinal `n`.
pub open spec fn para_id(n: nat) -> Seq<char> {
    seq!['P'] + dec(n)
}

/// The structure state after a paragraph opens: a row's first paragraph
/// clears the row flag.
pub open spec fn after_para_open(ds: DScan) -> DScan {
    if context_of(ds) matches ParaContext::TableCell { is_first_in_row: true, .. } {
        DScan { row_just_started: false, next_id: ds.next_id + 1, ..ds }
    } else {
        DScan { next_id: ds.next_id + 1, ..ds }
    }
}

/// The paragraphs with the last one, if it is in a table cell, marked as
/// closing its row.
pub open spec fn mark_last(paras: Seq<ParaV>) -> Seq<ParaV> {
    if paras.len() > 0 {
        match paras.last().context {
            ParaContext::TableCell { table_depth, row_idx, col_idx, is_first_in_row, .. } => paras.update(
                paras.len() - 1,
                ParaV {
                    context: ParaContext::TableCell {
                        table_depth,
                        row_idx,
                        col_idx,
                        is_first_in_row,
                        is_last_in_row: true,
                    },
                    ..paras.last()
                },
            ),
            _ => paras,
        }
    } else {
        paras
    }
}

/// Effect of a start tag outside paragraphs.
pub open spec fn doc_start(ds: DScan, t: XmlTag, pe: PosEvent) -> DScan {
    let l = local_of(t.name@);
    if l == "body"@ {
        DScan { in_body: true, body: (pe.after, ds.body.1), ..ds }
    } else if l == "tbl"@ {
        DScan {
            table_depth: inc_u32(ds.table_depth),
            tstack: ds.tstack.push((ds.rows, ds.cols)),
            rows: 0,
            cols: 0,
            ..ds
        }
    } else if l == "tr"@ {
        DScan { row_just_started: true, rows: inc_u32(ds.rows), cols: 0, ..ds }
    } else if l == "tc"@ {
        DScan { cols: inc_u32(ds.cols), ..ds }
    } else if l == "sdtContent"@ {
        DScan { sdt_depth: inc_u32(ds.sdt_depth), ..ds }
    } else if l == "p"@ && ds.in_body {
        let ps = PScan {
            id: para_id(ds.next_id),
            start: pe.before,
            ctx: context_of(ds),
            runs: Seq::empty(),
            para_style: None,
            alignment: None,
            indent: None,
            num_id: None,
            num_ilvl: None,
            depth: 1,
            in_ppr: false,
            in_rpr: false,
            in_numpr: false,
            cur: None,
            in_text: false,
            text_buf: Seq::empty(),
            has_drawing: false,
            drawing_depth: 0,
        };
        DScan { para: Some(ps), ..after_para_open(ds) }
    } else {
        ds
    }
}

/// Effect of an empty tag outside paragraphs.
pub open spec fn doc_empty(ds: DScan, t: XmlTag, pe: PosEvent) -> DScan {
    let l = local_of(t.name@);
    if l == "p"@ && ds.in_body {
        let pv = ParaV {
            id: para_id(ds.next_id),
            runs: Seq::empty(),
            para_style: None,
            alignment: None,
            indent_twips: None,
            num_id: None,
            num_ilvl: None,
            byte_range: (pe.before, pe.after),
            dirty: false,
            context: context_of(ds),
        };
        let d2 = after_para_open(ds);
        DScan { paras: d2.paras.push(pv), ..d2 }
    } else if l == "tc"@ {
        DScan { cols: inc_u32(ds.cols), ..ds }
    } else {
        ds
    }
}

/// Effect of an end tag outside paragraphs.
pub open spec fn doc_end(ds: DScan, name: Seq<char>, pe: PosEvent) -> DScan {
    let l = local_of(name);
    if l == "body"@ {
        DScan { body: (ds.body.0, pe.before), in_body: false, ..ds }
    } else if l == "tbl"@ {
        let d2 = DScan { table_depth: dec_pos_u32(ds.table_depth), ..ds };
        if ds.tstack.len() > 0 {
            DScan {
                rows: ds.tstack.last().0,
                cols: ds.tstack.last().1,
                tstack: ds.tstack.drop_last(),
                ..d2
            }
        } else {
            DScan { rows: 0, cols: 0, ..d2 }
        }
    } else if l == "tr"@ {
        DScan { paras: mark_last(ds.paras), ..ds }
    } else if l == "sdtContent"@ {
        DScan { sdt_depth: dec_pos_u32(ds.sdt_depth), ..ds }
    } else {
        ds
    }
}

/// Outcome of one event.
pub enum DStep {
    Next(DScan),
    Finish(DScan),
    Fail(Seq<char>),
}

/// Effect of one event on the scan of the document.
pub open spec fn doc_step(ds: DScan, pe: PosEvent) -> DStep {
    match ds.para {
        Some(ps) => match pe.event {
            XmlEvent::Start(t) => DStep::Next(DScan { para: Some(para_start(ps, t)), ..ds }),
            XmlEvent::Empty(t) => DStep::Next(DScan { para: Some(para_empty(ps, t)), ..ds }),
            XmlEvent::Text(r) => match para_text(ps, r) {
                Ok(p2) => DStep::Next(DScan { para: Some(p2), ..ds }),
                Err(m) => DStep::Fail(m),
            },
            XmlEvent::End(n) => match para_end(ps, n@, pe.after) {
                PEnd::Cont(p2) => DStep::Next(DScan { para: Some(p2), ..ds }),
                PEnd::Done(pv) => DStep::Next(DScan { paras: ds.paras.push(pv), para: None, ..ds }),
                PEnd::Fail(m) => DStep::Fail(m),
            },
            XmlEvent::Eof => DStep::Fail("EOF inside <w:p>"@),
            XmlEvent::Error(m) => DStep::Fail("xml error: "@ + m@),
            XmlEvent::Other => DStep::Next(ds),
        },
        None => match pe.event {
            XmlEvent::Start(t) => DStep::Next(doc_start(ds, t, pe)),
            XmlEvent::Empty(t) => DStep::Next(doc_empty(ds, t, pe)),
            XmlEvent::End(n) => DStep::Next(doc_end(ds, n@, pe)),
            XmlEvent::Eof => DStep::Finish(ds),
            XmlEvent::Error(m) => DStep::Fail("xml error: "@ + m@),
            _ => DStep::Next(ds),
        },
    }
}

/// The scan of events `i..`: the final state, or the error message.
pub open spec fn doc_scan(evs: Seq<PosEvent>, i: nat, ds: DScan) -> Result<DScan, Seq<char>>
    decreases evs.len() - i,
{
    if i >= evs.len() {
        if ds.para is Some {
            Err("EOF inside <w:p>"@)
        } else {
            Ok(ds)
        }
    } else {
        match doc_step(ds, evs[i as int]) {
            DStep::Next(d2) => doc_scan(evs, i + 1, d2),
            DStep::Finish(d2) => Ok(d2),
            DStep::Fail(m) => Err(m),
        }
    }
}

/// The initial scan state.
pub open spec fn doc_scan_start() -> DScan {
    DScan {
        in_body: false,
        table_depth: 0,
        row_just_started: false,
        sdt_depth: 0,
        next_id: 0,
        paras: Seq::empty(),
        body: (0, 0),
        tstack: Seq::empty(),
        rows: 0,
        cols: 0,
        para: None,
    }
}

/// The document that the events of `xml` describe, or the error message.
pub open spec fn document_of(xml: Seq<u8>, evs: Seq<PosEvent>) -> Result<DocV, Seq<char>> {
    match doc_scan(evs, 0, doc_scan_start()) {
        Ok(ds) => Ok(
            DocV {
                paragraphs: ds.paras,
                body_inner_range: ds.body,
                original_xml: xml,
                deleted_ranges: Seq::empty(),
                pending_inserts: Seq::empty(),
            },
        ),
        Err(m) => Err(m),
    }
}


/// The paragraphs read so far, and the one being read, carry the
/// identifiers of their ordinals, and the next ordinal follows them.
pub open spec fn ids_in_order(ds: DScan) -> bool {
    &&& forall|k: int| 0 <= k < ds.paras.len() ==> (#[trigger] ds.paras[k]).id == para_id(k as nat)
    &&& match ds.para {
        None => ds.next_id == ds.paras.len(),
        Some(ps) => ps.id == para_id(ds.paras.len()) && ds.next_id == ds.paras.len() + 1,
    }
}

/// Marking a row's last paragraph keeps every identifier.
proof fn lemma_mark_last_ids(paras: Seq<ParaV>)
    ensures
        mark_last(paras).len() == paras.len(),
        forall|k: int| 0 <= k < paras.len() ==> (#[trigger] mark_last(paras)[k]).id == paras[k].id,
{
}

/// One event keeps the identifiers in order.
proof fn lemma_step_ids(ds: DScan, pe: PosEvent)
    requires
        ids_in_order(ds),
    ensures
        doc_step(ds, pe) matches DStep::Next(d2) ==> ids_in_order(d2),
        doc_step(ds, pe) matches DStep::Finish(d2) ==> ids_in_order(d2),
{
    match ds.para {
        Some(ps) => {
            if let XmlEvent::End(n) = pe.event {
                if let PEnd::Done(pv) = para_end(ps, n@, pe.after) {
                    let d2 = DScan { paras: ds.paras.push(pv), para: None, ..ds };
                    assert forall|k: int| 0 <= k < d2.paras.len() implies (#[trigger] d2.paras[k]).id == para_id(
                        k as nat,
                    ) by {
                        if k < ds.paras.len() {
                            assert(d2.paras[k] == ds.paras[k]);
                        }
                    }
                }
            }
        },
        None => {
            match pe.event {
                XmlEvent::Empty(t) => {
                    let d2 = doc_empty(ds, t, pe);
                    assert forall|k: int| 0 <= k < d2.paras.len() implies (#[trigger] d2.paras[k]).id == para_id(
                        k as nat,
                    ) by {
                        if k < ds.paras.len() {
                            assert(d2.paras[k] == ds.paras[k]);
                        }
                    }
                },
                XmlEvent::End(n) => {
                    lemma_mark_last_ids(ds.paras);
                },
                _ => {},
            }
        },
    }
}

/// The scan of events `i..` keeps the identifiers in order.
proof fn lemma_scan_ids(evs: Seq<PosEvent>, i: nat, ds: DScan)
    requires
        ids_in_order(ds),
    ensures
        doc_scan(evs, i, ds) matches Ok(d) ==> ids_in_order(d),
    decreases evs.len() - i,
{
    if i < evs.len() {
        lemma_step_ids(ds, evs[i as int]);
        if let DStep::Next(d2) = doc_step(ds, evs[i as int]) {
            lemma_scan_ids(evs, i + 1, d2);
        }
    }
}

/// Whatever the events, the paragraphs of the document read from them are
/// numbered in order: the one at position `k` is `Pk`; so no two of them
/// have the same identifier.
pub proof fn lemma_paragraph_ids(xml: Seq<u8>, evs: Seq<PosEvent>)
    ensures
        document_of(xml, evs) matches Ok(d) ==> forall|k: int|
            0 <= k < d.paragraphs.len() ==> (#[trigger] d.paragraphs[k]).id == para_id(k as nat),
        document_of(xml, evs) matches Ok(d) ==> forall|i: int, j: int|
            0 <= i < j < d.paragraphs.len() ==> (#[trigger] d.paragraphs[i]).id != (#[trigger] d.paragraphs[j]).id,
{
    lemma_scan_ids(evs, 0, doc_scan_start());
    assert forall|i: nat, j: nat| i != j implies para_id(i) != para_id(j) by {
        if para_id(i) == para_id(j) {
            assert(dec(i) =~= para_id(i).drop_first());
            assert(dec(j) =~= para_id(j).drop_first());
            lemma_dec_injective(i, j);
        }
    }
}

/// The positions of the events move forward through the text: each event
/// ends no earlier than it starts, and the next starts no earlier than it
/// ends.
pub open spec fn positions_forward(evs: Seq<PosEvent>) -> bool {
    &&& forall|i: int| 0 <= i < evs.len() ==> (#[trigger] evs[i]).before <= evs[i].after
    &&& forall|i: int| 0 <= i < evs.len() - 1 ==> (#[trigger] evs[i]).after <= evs[i + 1].before
}

/// The paragraphs occupy byte ranges in order, each ending before the
/// next begins.
pub open spec fn ranges_in_order(ps: Seq<ParaV>) -> bool {
    &&& forall|k: int| 0 <= k < ps.len() ==> (#[trigger] ps[k]).byte_range.0 <= ps[k].byte_range.1
    &&& forall|i: int, j: int|
        0 <= i < j < ps.len() ==> (#[trigger] ps[i]).byte_range.1 <= (#[trigger] ps[j]).byte_range.0
}

/// The paragraphs read so far are in order and end by offset `b`, and the
/// one being read starts after them and by `b`.
spec fn ranges_below(ds: DScan, b: usize) -> bool {
    &&& ranges_in_order(ds.paras)
    &&& forall|k: int| 0 <= k < ds.paras.len() ==> (#[trigger] ds.paras[k]).byte_range.1 <= b
    &&& ds.para matches Some(ps) ==> ps.start <= b && forall|k: int|
        0 <= k < ds.paras.len() ==> (#[trigger] ds.paras[k]).byte_range.1 <= ps.start
}

/// Marking a row's last paragraph keeps every byte range.
proof fn lemma_mark_last_ranges(paras: Seq<ParaV>)
    ensures
        mark_last(paras).len() == paras.len(),
        forall|k: int| 0 <= k < paras.len() ==> (#[trigger] mark_last(paras)[k]).byte_range == paras[k].byte_range,
{
}

/// One event whose position moves forward keeps the ranges in order.
proof fn lemma_step_ranges(ds: DScan, pe: PosEvent)
    requires
        ranges_below(ds, pe.before),
        pe.before <= pe.after,
    ensures
        doc_step(ds, pe) matches DStep::Next(d2) ==> ranges_below(d2, pe.after),
        doc_step(ds, pe) matches DStep::Finish(d2) ==> ranges_below(d2, pe.after),
{
    match ds.para {
        Some(ps) => {
            if let XmlEvent::End(n) = pe.event {
                if let PEnd::Done(pv) = para_end(ps, n@, pe.after) {
                    let d2 = DScan { paras: ds.paras.push(pv), para: None, ..ds };
                    assert forall|i: int, j: int|
                        0 <= i < j < d2.paras.len() implies (#[trigger] d2.paras[i]).byte_range.1
                        <= (#[trigger] d2.paras[j]).byte_range.0 by {
                        assert(d2.paras[i] == ds.paras[i]);
                        if j < ds.paras.len() {
                            assert(d2.paras[j] == ds.paras[j]);
                        }
                    }
                    assert forall|k: int| 0 <= k < d2.paras.len() implies (#[trigger] d2.paras[k]).byte_range.0
                        <= d2.paras[k].byte_range.1 && d2.paras[k].byte_range.1 <= pe.after by {
                        if k < ds.paras.len() {
                            assert(d2.paras[k] == ds.paras[k]);
                        }
                    }
                }
            }
        },
        None => {
            match pe.event {
                XmlEvent::Empty(t) => {
                    let d2 = doc_empty(ds, t, pe);
                    if local_of(t.name@) == "p"@ && ds.in_body {
                        assert forall|i: int, j: int|
                            0 <= i < j < d2.paras.len() implies (#[trigger] d2.paras[i]).byte_range.1
                            <= (#[trigger] d2.paras[j]).byte_range.0 by {
                            assert(d2.paras[i] == ds.paras[i]);
                            if j < ds.paras.len() {
                                assert(d2.paras[j] == ds.paras[j]);
                            }
                        }
                        assert forall|k: int| 0 <= k < d2.paras.len() implies (#[trigger] d2.paras[k]).byte_range.0
                            <= d2.paras[k].byte_range.1 && d2.paras[k].byte_range.1 <= pe.after by {
                            if k < ds.paras.len() {
                                assert(d2.paras[k] == ds.paras[k]);
                            }
                        }
                    }
                },
                XmlEvent::End(n) => {
                    lemma_mark_last_ranges(ds.paras);
                    let d2 = doc_end(ds, n@, pe);
                    if local_of(n@) == "tr"@ {
                        assert forall|i: int, j: int|
                            0 <= i < j < d2.paras.len() implies (#[trigger] d2.paras[i]).byte_range.1
                            <= (#[trigger] d2.paras[j]).byte_range.0 by {
                            assert(ds.paras[i].byte_range.1 <= ds.paras[j].byte_range.0);
                        }
                    }
                },
                _ => {},
            }
        },
    }
}

/// The scan of events `i..`, whose positions move forward from offset
/// `b` on, keeps the ranges in order.
proof fn lemma_scan_ranges(evs: Seq<PosEvent>, i: nat, ds: DScan, b: usize, n: nat)
    requires
        positions_forward(evs),
        ranges_below(ds, b),
        i < evs.len() ==> b <= evs[i as int].before,
        b <= n,
        ds.body.0 <= n && ds.body.1 <= n,
        forall|j: int| 0 <= j < evs.len() ==> (#[trigger] evs[j]).after <= n,
    ensures
        doc_scan(evs, i, ds) matches Ok(d) ==> ranges_in_order(d.paras) && d.body.0 <= n && d.body.1 <= n
            && forall|k: int| 0 <= k < d.paras.len() ==> (#[trigger] d.paras[k]).byte_range.1 <= n,
    decreases evs.len() - i,
{
    if i < evs.len() {
        let pe = evs[i as int];
        assert(ranges_below(ds, pe.before));
        lemma_step_ranges(ds, pe);
        assert(pe.before <= pe.after <= n);
        match doc_step(ds, pe) {
            DStep::Next(d2) => {
                if i + 1 < evs.len() {
                    assert(evs[i as int].after <= evs[i as int + 1].before);
                }
                assert(d2.body.0 <= n && d2.body.1 <= n);
                lemma_scan_ranges(evs, i + 1, d2, pe.after, n);
            },
            DStep::Finish(d2) => {
                assert(d2.body.0 <= n && d2.body.1 <= n);
            },
            DStep::Fail(_) => {},
        }
    }
}

/// Where the positions of the events move forward through the text, the
/// paragraphs of the document read from them occupy byte ranges in
/// document order, each ending before the next begins; where besides no
/// event ends past the end of the text, the body and every paragraph lie
/// within it.
pub proof fn lemma_paragraph_ranges(xml: Seq<u8>, evs: Seq<PosEvent>)
    requires
        positions_forward(evs),
    ensures
        document_of(xml, evs) matches Ok(d) ==> ranges_in_order(d.paragraphs),
        (forall|j: int| 0 <= j < evs.len() ==> (#[trigger] evs[j]).after <= xml.len()) ==> (document_of(xml, evs) matches Ok(
            d,
        ) ==> ranges_ok(d)),
{
    lemma_scan_ranges(evs, 0, doc_scan_start(), 0, usize::MAX as nat);
    if forall|j: int| 0 <= j < evs.len() ==> (#[trigger] evs[j]).after <= xml.len() {
        lemma_scan_ranges(evs, 0, doc_scan_start(), 0, xml.len());
        if let Ok(d) = document_of(xml, evs) {
            assert forall|k: int| 0 <= k < d.paragraphs.len() implies crate::save::para_range_ok(
                #[trigger] d.paragraphs[k],
                xml.len(),
            ) by {}
        }
    }
}

/// The paragraphs read so far are unmarked and have non-empty ranges, and
/// the one being read started before offset `b`.
spec fn paras_clean(ds: DScan, b: usize) -> bool {
    &&& forall|k: int|
        0 <= k < ds.paras.len() ==> !(#[trigger] ds.paras[k]).dirty && ds.paras[k].byte_range.0
            < ds.paras[k].byte_range.1
    &&& ds.para matches Some(ps) ==> ps.start < b
}

/// Marking a row's last paragraph keeps every paragraph's mark.
proof fn lemma_mark_last_dirty(paras: Seq<ParaV>)
    ensures
        forall|k: int| 0 <= k < paras.len() ==> (#[trigger] mark_last(paras)[k]).dirty == paras[k].dirty,
{
}

/// One event keeps the paragraphs unmarked with non-empty ranges.
proof fn lemma_step_clean(ds: DScan, pe: PosEvent, b: usize)
    requires
        paras_clean(ds, b),
        b <= pe.before <= pe.after,
        (pe.event is Start || pe.event is Empty || pe.event is End) ==> pe.before < pe.after,
    ensures
        doc_step(ds, pe) matches DStep::Next(d2) ==> paras_clean(d2, pe.after),
        doc_step(ds, pe) matches DStep::Finish(d2) ==> paras_clean(d2, pe.after),
{
    match ds.para {
        Some(ps) => {
            if let XmlEvent::End(n) = pe.event {
                if let PEnd::Done(pv) = para_end(ps, n@, pe.after) {
                    let d2 = DScan { paras: ds.paras.push(pv), para: None, ..ds };
                    assert forall|k: int| 0 <= k < d2.paras.len() implies !(#[trigger] d2.paras[k]).dirty
                        && d2.paras[k].byte_range.0 < d2.paras[k].byte_range.1 by {
                        if k < ds.paras.len() {
                            assert(d2.paras[k] == ds.paras[k]);
                        }
                    }
                }
            }
        },
        None => {
            match pe.event {
                XmlEvent::Empty(t) => {
                    let d2 = doc_empty(ds, t, pe);
                    if local_of(t.name@) == "p"@ && ds.in_body {
                        assert forall|k: int| 0 <= k < d2.paras.len() implies !(#[trigger] d2.paras[k]).dirty
                            && d2.paras[k].byte_range.0 < d2.paras[k].byte_range.1 by {
                            if k < ds.paras.len() {
                                assert(d2.paras[k] == ds.paras[k]);
                            }
                        }
                    }
                },
                XmlEvent::End(n) => {
                    lemma_mark_last_dirty(ds.paras);
                    lemma_mark_last_ranges(ds.paras);
                },
                _ => {},
            }
        },
    }
}

/// The scan of events `i..` keeps the paragraphs unmarked with non-empty
/// ranges.
proof fn lemma_scan_clean(evs: Seq<PosEvent>, i: nat, ds: DScan, b: usize)
    requires
        positions_forward(evs),
        tags_advance(evs),
        paras_clean(ds, b),
        i < evs.len() ==> b <= evs[i as int].before,
    ensures
        doc_scan(evs, i, ds) matches Ok(d) ==> forall|k: int|
            0 <= k < d.paras.len() ==> !(#[trigger] d.paras[k]).dirty && d.paras[k].byte_range.0
                < d.paras[k].byte_range.1,
    decreases evs.len() - i,
{
    if i < evs.len() {
        let pe = evs[i as int];
        lemma_step_clean(ds, pe, b);
        if let DStep::Next(d2) = doc_step(ds, pe) {
            if i + 1 < evs.len() {
                assert(evs[i as int].after <= evs[i as int + 1].before);
            }
            lemma_scan_clean(evs, i + 1, d2, pe.after);
        }
    }
}

/// The event opens the body: a start tag whose local name is `body`.
pub open spec fn is_body_start(e: XmlEvent) -> bool {
    e matches XmlEvent::Start(t) && local_of(t.name@) == "body"@
}

/// The body opens at most once in the events.
pub open spec fn body_opens_once(evs: Seq<PosEvent>) -> bool {
    forall|a: int, c: int|
        0 <= a < evs.len() && 0 <= c < evs.len() && is_body_start(#[trigger] evs[a].event) && is_body_start(
            #[trigger] evs[c].event,
        ) ==> a == c
}

/// Where the body stands in the scan, with `b` the offset reached: before
/// it opened there are no paragraphs; once open, every paragraph starts in
/// it; while it is open its end is not yet set past its start; once closed
/// no paragraph is being read and every paragraph ends by its end.
spec fn body_inv(ds: DScan, seen: bool, b: usize) -> bool {
    if !seen {
        &&& ds.paras.len() == 0
        &&& ds.para is None
        &&& !ds.in_body
        &&& ds.body.0 == 0
        &&& ds.body.1 <= b
    } else {
        &&& forall|k: int| 0 <= k < ds.paras.len() ==> ds.body.0 <= (#[trigger] ds.paras[k]).byte_range.0
        &&& ds.para matches Some(ps) ==> ds.body.0 <= ps.start
        &&& ds.body.0 <= b
        &&& ds.in_body ==> ds.body.1 < ds.body.0
        &&& !ds.in_body ==> ds.para is None && ds.body.0 <= ds.body.1 && forall|k: int|
            0 <= k < ds.paras.len() ==> (#[trigger] ds.paras[k]).byte_range.1 <= ds.body.1
    }
}

/// One event keeps [`body_inv`]; it opens the body exactly when it is the
/// body's start tag read outside paragraphs.
proof fn lemma_step_body(ds: DScan, pe: PosEvent, b: usize, seen: bool)
    requires
        body_inv(ds, seen, b),
        ranges_below(ds, b),
        b <= pe.before <= pe.after,
        (pe.event is Start || pe.event is Empty || pe.event is End) ==> pe.before < pe.after,
        seen ==> !is_body_start(pe.event),
    ensures
        doc_step(ds, pe) matches DStep::Next(d2) ==> body_inv(d2, seen || is_body_start(pe.event), pe.after),
        doc_step(ds, pe) matches DStep::Finish(d2) ==> body_inv(d2, seen || is_body_start(pe.event), pe.after),
{
    lemma_step_ranges(ds, pe);
    match ds.para {
        Some(ps) => {
            assert(seen);
            if let XmlEvent::End(n) = pe.event {
                if let PEnd::Done(pv) = para_end(ps, n@, pe.after) {
                    let d2 = DScan { paras: ds.paras.push(pv), para: None, ..ds };
                    assert forall|k: int| 0 <= k < d2.paras.len() implies ds.body.0 <= (
                    #[trigger] d2.paras[k]).byte_range.0 by {
                        if k < ds.paras.len() {
                            assert(d2.paras[k] == ds.paras[k]);
                        }
                    }
                }
            }
        },
        None => {
            match pe.event {
                XmlEvent::Start(t) => {
                    let d2 = doc_start(ds, t, pe);
                    if local_of(t.name@) == "body"@ {
                        assert(is_body_start(pe.event));
                        assert(!seen);
                    }
                },
                XmlEvent::Empty(t) => {
                    let d2 = doc_empty(ds, t, pe);
                    if local_of(t.name@) == "p"@ && ds.in_body {
                        assert forall|k: int| 0 <= k < d2.paras.len() implies ds.body.0 <= (
                        #[trigger] d2.paras[k]).byte_range.0 by {
                            if k < ds.paras.len() {
                                assert(d2.paras[k] == ds.paras[k]);
                            }
                        }
                    }
                },
                XmlEvent::End(n) => {
                    lemma_mark_last_ranges(ds.paras);
                    let d2 = doc_end(ds, n@, pe);
                    if local_of(n@) == "body"@ {
                        assert forall|k: int| 0 <= k < d2.paras.len() implies (#[trigger] d2.paras[k]).byte_range.1
                            <= d2.body.1 by {
                            assert(ds.paras[k].byte_range.1 <= b);
                        }
                    } else if local_of(n@) == "tr"@ {
                        assert forall|k: int| 0 <= k < d2.paras.len() implies ds.body.0 <= (
                        #[trigger] d2.paras[k]).byte_range.0 && (!ds.in_body ==> d2.paras[k].byte_range.1
                            <= ds.body.1) by {
                            assert(d2.paras[k].byte_range == ds.paras[k].byte_range);
                        }
                    }
                },
                _ => {},
            }
        },
    }
}

/// The scan of events `i..`, in which the body opens at most once, keeps
/// [`body_inv`].
proof fn lemma_scan_body(evs: Seq<PosEvent>, i: nat, ds: DScan, b: usize, seen: bool)
    requires
        positions_forward(evs),
        tags_advance(evs),
        body_opens_once(evs),
        body_inv(ds, seen, b),
        ranges_below(ds, b),
        i < evs.len() ==> b <= evs[i as int].before,
        seen ==> forall|k: int| i <= k < evs.len() ==> !is_body_start(#[trigger] evs[k].event),
    ensures
        doc_scan(evs, i, ds) matches Ok(d) ==> {
            &&& forall|k: int| 0 <= k < d.paras.len() ==> d.body.0 <= (#[trigger] d.paras[k]).byte_range.0
            &&& d.body.0 <= d.body.1 ==> forall|k: int|
                0 <= k < d.paras.len() ==> (#[trigger] d.paras[k]).byte_range.1 <= d.body.1
        },
    decreases evs.len() - i,
{
    if i < evs.len() {
        let pe = evs[i as int];
        lemma_step_body(ds, pe, b, seen);
        lemma_step_ranges(ds, pe);
        let seen2 = seen || is_body_start(pe.event);
        if let DStep::Next(d2) = doc_step(ds, pe) {
            if i + 1 < evs.len() {
                assert(evs[i as int].after <= evs[i as int + 1].before);
            }
            if is_body_start(pe.event) {
                assert forall|k: int| i + 1 <= k < evs.len() implies !is_body_start(#[trigger] evs[k].event) by {
                    if is_body_start(evs[k].event) {
                        assert(evs[i as int].event == pe.event);
                    }
                }
            }
            lemma_scan_body(evs, i + 1, d2, pe.after, seen2);
        }
    }
}

/// Whatever the events, when their positions move forward and each tag
/// consumes input, every paragraph of the document read from them is
/// unmarked and has a non-empty byte range; where besides the body opens
/// at most once, every paragraph starts inside the body, and, when the
/// body's range is not reversed (the body was closed), ends inside it.
pub proof fn lemma_paragraphs_in_body(xml: Seq<u8>, evs: Seq<PosEvent>)
    requires
        positions_forward(evs),
        tags_advance(evs),
    ensures
        document_of(xml, evs) matches Ok(d) ==> forall|k: int|
            0 <= k < d.paragraphs.len() ==> !(#[trigger] d.paragraphs[k]).dirty && d.paragraphs[k].byte_range.0
                < d.paragraphs[k].byte_range.1,
        body_opens_once(evs) ==> (document_of(xml, evs) matches Ok(d) ==> {
            &&& forall|k: int|
                0 <= k < d.paragraphs.len() ==> d.body_inner_range.0 <= (#[trigger] d.paragraphs[k]).byte_range.0
            &&& d.body_inner_range.0 <= d.body_inner_range.1 ==> forall|k: int|
                0 <= k < d.paragraphs.len() ==> (#[trigger] d.paragraphs[k]).byte_range.1 <= d.body_inner_range.1
        }),
{
    lemma_scan_clean(evs, 0, doc_scan_start(), 0);
    if body_opens_once(evs) {
        lemma_scan_body(evs, 0, doc_scan_start(), 0, false);
    }
}

// ---------------------------------------------------------------------
// The scan in memory
// ---------------------------------------------------------------------

/// The view of an optional run.
pub open spec fn opt_run(o: Option<Run>) -> Option<RunV> {
    match o {
        Some(r) => Some(r@),
        None => None,
    }
}

/// The view of an optional string.
pub open spec fn opt_s(o: Option<String>) -> Option<Seq<char>> {
    match o {
        Some(s) => Some(s@),
        None => None,
    }
}

struct ParaScanExec {
    id: String,
    start: usize,
    ctx: ParaContext,
    runs: Vec<Run>,
    para_style: Option<String>,
    alignment: Option<String>,
    indent: Option<i32>,
    num_id: Option<u32>,
    num_ilvl: Option<u32>,
    depth: i32,
    in_ppr: bool,
    in_rpr: bool,
    in_numpr: bool,
    cur: Option<Run>,
    in_text: bool,
    text_buf: String,
    has_drawing: bool,
    drawing_depth: i32,
}

impl View for ParaScanExec {
    type V = PScan;

    closed spec fn view(&self) -> PScan {
        PScan {
            id: self.id@,
            start: self.start,
            ctx: self.ctx,
            runs: self.runs@.map_values(|r: Run| r@),
            para_style: opt_s(self.para_style),
            alignment: opt_s(self.alignment),
            indent: self.indent,
            num_id: self.num_id,
            num_ilvl: self.num_ilvl,
            depth: self.depth,
            in_ppr: self.in_ppr,
            in_rpr: self.in_rpr,
            in_numpr: self.in_numpr,
            cur: opt_run(self.cur),
            in_text: self.in_text,
            text_buf: self.text_buf@,
            has_drawing: self.has_drawing,
            drawing_depth: self.drawing_depth,
        }
    }
}

/// A new, empty text run.
fn empty_run() -> (r: Run)
    ensures
        r@ == new_run(),
{
    let r = Run {
        text: String::new(),
        style: RunStyle {
            bold: false,
            italic: false,
            size_half_pt: None,
            color_hex: None,
            highlight: None,
            font_name: None,
        },
        is_drawing: false,
        rel_id: None,
        byte_range: None,
        media_name: None,
        drawing_xml: None,
    };
    assert(r@ =~= new_run());
    r
}

/// True when an on/off attribute value means off.
fn is_false_value(v: &str) -> (r: bool)
    ensures
        r == is_false(v@),
{
    same_text(v, "false") || same_text(v, "0") || same_text(v, "off")
}

/// Applies a character property tag named `l` to the current run.
fn set_run_style(cur: &mut Option<Run>, l: &str, t: &XmlTag)
    requires
        is_rpr_name(l@),
    ensures
        opt_run(*final(cur)) == styled(opt_run(*old(cur)), l@, *t),
{
    if let Some(r) = cur {
        let val = attr_val(t, "w:val");
        let flag = match &val {
            Some(v) => !is_false_value(v.as_str()),
            None => true,
        };
        if same_text(l, "b") {
            r.style.bold = flag;
        } else if same_text(l, "i") {
            r.style.italic = flag;
        } else if same_text(l, "sz") {
            if let Some(v) = &val {
                r.style.size_half_pt = parse_u32(v.as_str());
            }
        } else if same_text(l, "color") {
            if let Some(v) = &val {
                if !same_text(v.as_str(), "auto") {
                    r.style.color_hex = Some(to_uppercase(v.as_str()));
                }
            }
        } else if same_text(l, "highlight") {
            if let Some(v) = val {
                if !same_text(v.as_str(), "none") {
                    r.style.highlight = Some(v);
                }
            }
        } else {
            match attr_val(t, "w:ascii") {
                Some(n) => {
                    r.style.font_name = Some(n);
                },
                None => match attr_val(t, "w:hAnsi") {
                    Some(n) => {
                        r.style.font_name = Some(n);
                    },
                    None => {},
                },
            }
        }
    }
}

/// True when `l` is a character property tag name.
fn is_rpr_name_exec(l: &str) -> (r: bool)
    ensures
        r == is_rpr_name(l@),
{
    same_text(l, "b") || same_text(l, "i") || same_text(l, "sz") || same_text(l, "color")
        || same_text(l, "highlight") || same_text(l, "rFonts")
}

/// Applies a property tag that start and empty tags share; false (and no
/// change) when the tag is no such property in its place.
fn apply_shared(ps: &mut ParaScanExec, l: &str, t: &XmlTag) -> (applied: bool)
    ensures
        applied == (shared_prop(old(ps)@, l@, *t) is Some),
        applied ==> final(ps)@ == shared_prop(old(ps)@, l@, *t)->0,
        !applied ==> final(ps)@ == old(ps)@,
{
    if same_text(l, "pStyle") && ps.in_ppr {
        if let Some(v) = attr_val(t, "w:val") {
            ps.para_style = Some(v);
        }
        true
    } else if same_text(l, "jc") && ps.in_ppr {
        if let Some(v) = attr_val(t, "w:val") {
            ps.alignment = Some(v);
        }
        true
    } else if same_text(l, "ind") && ps.in_ppr {
        match attr_val(t, "w:left") {
            Some(v) => {
                ps.indent = parse_i32(v.as_str());
            },
            None => match attr_val(t, "w:start") {
                Some(v) => {
                    ps.indent = parse_i32(v.as_str());
                },
                None => {},
            },
        }
        true
    } else if same_text(l, "numId") && ps.in_numpr {
        if let Some(v) = attr_val(t, "w:val") {
            ps.num_id = parse_u32(v.as_str());
        }
        true
    } else if same_text(l, "ilvl") && ps.in_numpr {
        if let Some(v) = attr_val(t, "w:val") {
            ps.num_ilvl = parse_u32(v.as_str());
        }
        true
    } else if is_rpr_name_exec(l) && ps.in_rpr {
        set_run_style(&mut ps.cur, l, t);
        true
    } else {
        false
    }
}

/// True when `l` marks a drawing, picture or embedded object.
fn is_drawing_name_exec(l: &str) -> (r: bool)
    ensures
        r == is_drawing_name(l@),
{
    same_text(l, "drawing") || same_text(l, "pict") || same_text(l, "object")
}

/// `x + 1`, staying at the maximum.
fn inc_i32_exec(x: i32) -> (r: i32)
    ensures
        r == inc_i32(x),
{
    if x < i32::MAX { x + 1 } else { x }
}

/// `x + 1`, staying at the maximum.
fn inc_u32_exec(x: u32) -> (r: u32)
    ensures
        r == inc_u32(x),
{
    if x < u32::MAX { x + 1 } else { x }
}

fn scan_para_start(ps: &mut ParaScanExec, t: &XmlTag)
    ensures
        final(ps)@ == para_start(old(ps)@, *t),
{
    ps.depth = inc_i32_exec(ps.depth);
    let l = local_name(t.name.as_str());
    if same_text(l.as_str(), "pPr") {
        ps.in_ppr = true;
    } else if same_text(l.as_str(), "numPr") && ps.in_ppr {
        ps.in_numpr = true;
    } else if same_text(l.as_str(), "r") {
        ps.cur = Some(empty_run());
        ps.has_drawing = false;
    } else if same_text(l.as_str(), "rPr") {
        ps.in_rpr = true;
    } else if same_text(l.as_str(), "t") {
        ps.in_text = true;
    } else if is_drawing_name_exec(l.as_str()) {
        ps.has_drawing = true;
        ps.drawing_depth = inc_i32_exec(ps.drawing_depth);
    } else {
        let applied = apply_shared(ps, l.as_str(), t);
        if !applied && ps.drawing_depth > 0 {
            ps.drawing_depth = inc_i32_exec(ps.drawing_depth);
        }
    }
}

/// Appends a character to the text of the current run, if there is one.
fn push_to_cur(cur: &mut Option<Run>, c: char)
    ensures
        opt_run(*final(cur)) == cur_push(opt_run(*old(cur)), c),
{
    if let Some(r) = cur {
        push_char(&mut r.text, c);
    }
}

fn scan_para_empty(ps: &mut ParaScanExec, t: &XmlTag)
    ensures
        final(ps)@ == para_empty(old(ps)@, *t),
{
    let l = local_name(t.name.as_str());
    let applied = apply_shared(ps, l.as_str(), t);
    if !applied {
        if same_text(l.as_str(), "tab") {
            push_to_cur(&mut ps.cur, '\t');
        } else if same_text(l.as_str(), "br") {
            push_to_cur(&mut ps.cur, '\u{2028}');
        }
    }
}

/// The message of a failed XML read.
fn xml_error(m: &str) -> (e: AppError)
    ensures
        e.0@ == "xml error: "@ + m@,
{
    let mut msg = String::from_str("xml error: ");
    push_str(&mut msg, m);
    AppError(msg)
}

fn scan_para_text(ps: &mut ParaScanExec, r: &Result<String, String>) -> (res: Result<(), AppError>)
    ensures
        match para_text(old(ps)@, *r) {
            Ok(p2) => res is Ok && final(ps)@ == p2,
            Err(m) => res is Err && res->Err_0.0@ == m,
        },
{
    if ps.in_text && ps.drawing_depth == 0 {
        match r {
            Ok(s) => {
                push_str(&mut ps.text_buf, s.as_str());
                Ok(())
            },
            Err(m) => Err(xml_error(m.as_str())),
        }
    } else {
        Ok(())
    }
}

/// True when the run is kept: it has text, formatting or a drawing.
fn keep_run_exec(r: &Run) -> (k: bool)
    ensures
        k == keep_run(r@),
{
    let n = r.text.as_str().is_empty();
    !n || !r.style.is_default() || r.is_drawing
}

enum PEndExec {
    Cont(ParaScanExec),
    Done(Paragraph),
    Fail(AppError),
}

fn scan_para_end(ps0: ParaScanExec, name: &String, after: usize) -> (out: PEndExec)
    requires
        ps0@.depth >= 1,
    ensures
        match para_end(ps0@, name@, after) {
            PEnd::Cont(p2) => out is Cont && out->Cont_0@ == p2 && p2.depth >= 1,
            PEnd::Done(pv) => out is Done && out->Done_0@ == pv,
            PEnd::Fail(m) => out is Fail && out->Fail_0.0@ == m,
        },
{
    let mut ps = ps0;
    ps.depth = ps.depth - 1;
    let l = local_name(name.as_str());
    if same_text(l.as_str(), "p") {
        let p = Paragraph {
            id: ps.id,
            runs: ps.runs,
            para_style: ps.para_style,
            alignment: ps.alignment,
            indent_twips: ps.indent,
            num_id: ps.num_id,
            num_ilvl: ps.num_ilvl,
            byte_range: (ps.start, after),
            dirty: false,
            context: ps.ctx,
        };
        return PEndExec::Done(p);
    }
    if same_text(l.as_str(), "pPr") {
        ps.in_ppr = false;
    } else if same_text(l.as_str(), "rPr") {
        ps.in_rpr = false;
    } else if same_text(l.as_str(), "numPr") {
        ps.in_numpr = false;
    } else if same_text(l.as_str(), "t") {
        ps.in_text = false;
        if ps.cur.is_some() {
            let buf = ps.text_buf.clone();
            if let Some(r) = &mut ps.cur {
                push_str(&mut r.text, buf.as_str());
            }
            ps.text_buf = String::new();
        }
    } else if same_text(l.as_str(), "r") {
        match ps.cur.take() {
            Some(r0) => {
                let mut run = r0;
                run.is_drawing = ps.has_drawing;
                ps.has_drawing = false;
                if keep_run_exec(&run) {
                    let ghost before = ps.runs@;
                    ps.runs.push(run);
                    assert(ps.runs@.map_values(|r: Run| r@) =~= before.map_values(|r: Run| r@).push(
                        run@,
                    ));
                }
            },
            None => {},
        }
    } else if ps.drawing_depth > 0 {
        ps.drawing_depth = ps.drawing_depth - 1;
    }
    if ps.depth <= 0 {
        PEndExec::Fail(AppError(String::from_str("Unbalanced XML: closing tag beyond paragraph")))
    } else {
        PEndExec::Cont(ps)
    }
}


struct DocScanExec {
    in_body: bool,
    table_depth: u32,
    row_just_started: bool,
    sdt_depth: u32,
    next_id: usize,
    paras: Vec<Paragraph>,
    body: (usize, usize),
    tstack: Vec<(u32, u32)>,
    rows: u32,
    cols: u32,
    para: Option<ParaScanExec>,
}

/// The view of an optional paragraph scan.
spec fn opt_pscan(o: Option<ParaScanExec>) -> Option<PScan> {
    match o {
        Some(p) => Some(p@),
        None => None,
    }
}

impl View for DocScanExec {
    type V = DScan;

    closed spec fn view(&self) -> DScan {
        DScan {
            in_body: self.in_body,
            table_depth: self.table_depth,
            row_just_started: self.row_just_started,
            sdt_depth: self.sdt_depth,
            next_id: self.next_id as nat,
            paras: self.paras@.map_values(|p: Paragraph| p@),
            body: self.body,
            tstack: self.tstack@,
            rows: self.rows,
            cols: self.cols,
            para: opt_pscan(self.para),
        }
    }
}

impl DocScanExec {
    /// The paragraph scan, when open, is inside its `<w:p>`.
    closed spec fn inv(&self) -> bool {
        self.para matches Some(p) ==> p@.depth >= 1
    }
}

/// The context of a paragraph opened in the current structure.
fn current_context(ds: &DocScanExec) -> (c: ParaContext)
    ensures
        c == context_of(ds@),
{
    if ds.table_depth > 0 {
        ParaContext::TableCell {
            table_depth: ds.table_depth,
            row_idx: if ds.rows > 0 { ds.rows - 1 } else { 0 },
            col_idx: if ds.cols > 0 { ds.cols - 1 } else { 0 },
            is_first_in_row: ds.row_just_started,
            is_last_in_row: false,
        }
    } else if ds.sdt_depth > 0 {
        ParaContext::Sdt
    } else {
        ParaContext::Body
    }
}

/// The identifier `P<n>`.
fn para_id_exec(n: usize) -> (s: String)
    ensures
        s@ == para_id(n as nat),
{
    let mut s = String::new();
    push_char(&mut s, 'P');
    push_dec(&mut s, n as u64);
    assert(s@ =~= para_id(n as nat));
    s
}

/// Marks the last paragraph, if it is in a table cell, as closing its row.
fn mark_last_in_row(paras: &mut Vec<Paragraph>)
    ensures
        final(paras)@.map_values(|p: Paragraph| p@) == mark_last(old(paras)@.map_values(
            |p: Paragraph| p@,
        )),
{
    let n = paras.len();
    if n == 0 {
        return;
    }
    let ghost before = paras@;
    let ctx = paras[n - 1].context;
    match ctx {
        ParaContext::TableCell { table_depth, row_idx, col_idx, is_first_in_row, .. } => {
            let mut last = paras.pop().unwrap();
            last.context = ParaContext::TableCell {
                table_depth,
                row_idx,
                col_idx,
                is_first_in_row,
                is_last_in_row: true,
            };
            paras.push(last);
            assert(paras@.map_values(|p: Paragraph| p@) =~= mark_last(
                before.map_values(|p: Paragraph| p@),
            ));
        },
        _ => {},
    }
}

/// Records that a paragraph opened: the next ordinal, and a row's first
/// paragraph clears the row flag.
fn note_para_open(ds: &mut DocScanExec, ctx: ParaContext)
    requires
        ctx == context_of(old(ds)@),
        old(ds).next_id < usize::MAX,
    ensures
        final(ds)@ == after_para_open(old(ds)@),
        final(ds).para == old(ds).para,
{
    if let ParaContext::TableCell { is_first_in_row: true, .. } = ctx {
        ds.row_just_started = false;
    }
    ds.next_id = ds.next_id + 1;
}

fn scan_doc_start(ds: &mut DocScanExec, t: &XmlTag, pe: &PosEvent)
    requires
        old(ds).para is None,
        old(ds).next_id < usize::MAX,
    ensures
        final(ds)@ == doc_start(old(ds)@, *t, *pe),
        final(ds).inv(),
{
    let l = local_name(t.name.as_str());
    if same_text(l.as_str(), "body") {
        ds.in_body = true;
        ds.body = (pe.after, ds.body.1);
    } else if same_text(l.as_str(), "tbl") {
        ds.table_depth = inc_u32_exec(ds.table_depth);
        ds.tstack.push((ds.rows, ds.cols));
        ds.rows = 0;
        ds.cols = 0;
    } else if same_text(l.as_str(), "tr") {
        ds.row_just_started = true;
        ds.rows = inc_u32_exec(ds.rows);
        ds.cols = 0;
    } else if same_text(l.as_str(), "tc") {
        ds.cols = inc_u32_exec(ds.cols);
    } else if same_text(l.as_str(), "sdtContent") {
        ds.sdt_depth = inc_u32_exec(ds.sdt_depth);
    } else if same_text(l.as_str(), "p") && ds.in_body {
        let ctx = current_context(ds);
        let id = para_id_exec(ds.next_id);
        let ps = ParaScanExec {
            id,
            start: pe.before,
            ctx,
            runs: Vec::new(),
            para_style: None,
            alignment: None,
            indent: None,
            num_id: None,
            num_ilvl: None,
            depth: 1,
            in_ppr: false,
            in_rpr: false,
            in_numpr: false,
            cur: None,
            in_text: false,
            text_buf: String::new(),
            has_drawing: false,
            drawing_depth: 0,
        };
        note_para_open(ds, ctx);
        ds.para = Some(ps);
        assert(ps@.runs =~= Seq::<RunV>::empty());
    }
}

fn scan_doc_empty(ds: &mut DocScanExec, t: &XmlTag, pe: &PosEvent)
    requires
        old(ds).para is None,
        old(ds).next_id < usize::MAX,
    ensures
        final(ds)@ == doc_empty(old(ds)@, *t, *pe),
        final(ds).para is None,
{
    let l = local_name(t.name.as_str());
    if same_text(l.as_str(), "p") && ds.in_body {
        let ctx = current_context(ds);
        let id = para_id_exec(ds.next_id);
        let p = Paragraph {
            id,
            runs: Vec::new(),
            para_style: None,
            alignment: None,
            indent_twips: None,
            num_id: None,
            num_ilvl: None,
            byte_range: (pe.before, pe.after),
            dirty: false,
            context: ctx,
        };
        note_para_open(ds, ctx);
        let ghost before = ds.paras@;
        ds.paras.push(p);
        assert(p@.runs =~= Seq::<RunV>::empty());
        assert(ds.paras@.map_values(|p: Paragraph| p@) =~= before.map_values(|p: Paragraph| p@).push(
            p@,
        ));
    } else if same_text(l.as_str(), "tc") {
        ds.cols = inc_u32_exec(ds.cols);
    }
}

fn scan_doc_end(ds: &mut DocScanExec, name: &String, pe: &PosEvent)
    requires
        old(ds).para is None,
    ensures
        final(ds)@ == doc_end(old(ds)@, name@, *pe),
        final(ds).para is None,
        final(ds).next_id == old(ds).next_id,
{
    let l = local_name(name.as_str());
    if same_text(l.as_str(), "body") {
        ds.body = (ds.body.0, pe.before);
        ds.in_body = false;
    } else if same_text(l.as_str(), "tbl") {
        if ds.table_depth > 0 {
            ds.table_depth = ds.table_depth - 1;
        }
        match ds.tstack.pop() {
            Some(rc) => {
                ds.rows = rc.0;
                ds.cols = rc.1;
            },
            None => {
                ds.rows = 0;
                ds.cols = 0;
            },
        }
    } else if same_text(l.as_str(), "tr") {
        mark_last_in_row(&mut ds.paras);
    } else if same_text(l.as_str(), "sdtContent") {
        if ds.sdt_depth > 0 {
            ds.sdt_depth = ds.sdt_depth - 1;
        }
    }
}

enum StepExec {
    Next,
    Finish,
    Fail(AppError),
}

/// Applies one event to the scan.
fn scan_step(ds: &mut DocScanExec, pe: &PosEvent) -> (r: StepExec)
    requires
        old(ds).inv(),
        old(ds).next_id < usize::MAX,
    ensures
        match doc_step(old(ds)@, *pe) {
            DStep::Next(d2) => r is Next && final(ds)@ == d2 && final(ds).inv(),
            DStep::Finish(d2) => r is Finish && final(ds)@ == d2,
            DStep::Fail(m) => r is Fail && r->Fail_0.0@ == m,
        },
        final(ds).next_id <= old(ds).next_id + 1,
{
    match ds.para.take() {
        Some(ps0) => {
            let mut ps = ps0;
            match &pe.event {
                XmlEvent::Start(t) => {
                    scan_para_start(&mut ps, t);
                    ds.para = Some(ps);
                    StepExec::Next
                },
                XmlEvent::Empty(t) => {
                    scan_para_empty(&mut ps, t);
                    ds.para = Some(ps);
                    StepExec::Next
                },
                XmlEvent::Text(r) => {
                    match scan_para_text(&mut ps, r) {
                        Ok(()) => {
                            ds.para = Some(ps);
                            StepExec::Next
                        },
                        Err(e) => StepExec::Fail(e),
                    }
                },
                XmlEvent::End(n) => {
                    match scan_para_end(ps, n, pe.after) {
                        PEndExec::Cont(p2) => {
                            ds.para = Some(p2);
                            StepExec::Next
                        },
                        PEndExec::Done(p) => {
                            let ghost before = ds.paras@;
                            ds.paras.push(p);
                            assert(ds.paras@.map_values(|p: Paragraph| p@) =~= before.map_values(
                                |p: Paragraph| p@,
                            ).push(p@));
                            StepExec::Next
                        },
                        PEndExec::Fail(e) => StepExec::Fail(e),
                    }
                },
                XmlEvent::Eof => StepExec::Fail(AppError(String::from_str("EOF inside <w:p>"))),
                XmlEvent::Error(m) => StepExec::Fail(xml_error(m.as_str())),
                XmlEvent::Other => {
                    ds.para = Some(ps);
                    StepExec::Next
                },
            }
        },
        None => {
            match &pe.event {
                XmlEvent::Start(t) => {
                    scan_doc_start(ds, t, pe);
                    StepExec::Next
                },
                XmlEvent::Empty(t) => {
                    scan_doc_empty(ds, t, pe);
                    StepExec::Next
                },
                XmlEvent::End(n) => {
                    scan_doc_end(ds, n, pe);
                    StepExec::Next
                },
                XmlEvent::Eof => StepExec::Finish,
                XmlEvent::Error(m) => StepExec::Fail(xml_error(m.as_str())),
                _ => StepExec::Next,
            }
        },
    }
}

/// The document made of the scanned paragraphs and body range.
fn finish_document(xml_bytes: &[u8], paras: Vec<Paragraph>, body: (usize, usize)) -> (d: Document)
    ensures
        d@ == (DocV {
            paragraphs: paras@.map_values(|p: Paragraph| p@),
            body_inner_range: body,
            original_xml: xml_bytes@,
            deleted_ranges: Seq::empty(),
            pending_inserts: Seq::empty(),
        }),
{
    let d = Document {
        paragraphs: paras,
        body_inner_range: body,
        original_xml: slice_to_vec(xml_bytes),
        deleted_ranges: Vec::new(),
        pending_inserts: Vec::new(),
    };
    assert(d@.deleted_ranges =~= Seq::<(usize, usize, Seq<char>)>::empty());
    assert(d@.pending_inserts =~= Seq::<(Seq<char>, InsertPosition, Seq<char>)>::empty());
    d
}

/// The document that a stream of events of `xml_bytes` describes: the
/// paragraphs of the body in order, each with its identifier, properties,
/// runs, byte range and structural context, and the byte range of the
/// body's content; or the message of the first error.
pub fn parse_events(xml_bytes: &[u8], evs: &Vec<PosEvent>) -> (r: Result<Document, AppError>)
    ensures
        match document_of(xml_bytes@, evs@) {
            Ok(d) => r is Ok && r->Ok_0@ == d,
            Err(m) => r is Err && r->Err_0.0@ == m,
        },
        r matches Ok(d) ==> forall|k: int|
            0 <= k < d@.paragraphs.len() ==> (#[trigger] d@.paragraphs[k]).id == para_id(k as nat),
{
    let mut ds = DocScanExec {
        in_body: false,
        table_depth: 0,
        row_just_started: false,
        sdt_depth: 0,
        next_id: 0,
        paras: Vec::new(),
        body: (0, 0),
        tstack: Vec::new(),
        rows: 0,
        cols: 0,
        para: None,
    };
    assert(ds@.paras =~= Seq::<ParaV>::empty());
    assert(ds@.tstack =~= Seq::<(u32, u32)>::empty());
    assert(ds@ == doc_scan_start());
    let mut i: usize = 0;
    while i < evs.len()
        invariant
            i <= evs@.len(),
            ds.next_id <= i,
            ds.inv(),
            doc_scan(evs@, 0, doc_scan_start()) == doc_scan(evs@, i as nat, ds@),
        decreases evs@.len() - i,
    {
        match scan_step(&mut ds, &evs[i]) {
            StepExec::Next => {},
            StepExec::Finish => {
                proof {
                    lemma_paragraph_ids(xml_bytes@, evs@);
                }
                return Ok(finish_document(xml_bytes, ds.paras, ds.body));
            },
            StepExec::Fail(e) => {
                return Err(e);
            },
        }
        i += 1;
    }
    if ds.para.is_some() {
        return Err(AppError(String::from_str("EOF inside <w:p>")));
    }
    proof {
        lemma_paragraph_ids(xml_bytes@, evs@);
    }
    Ok(finish_document(xml_bytes, ds.paras, ds.body))
}

/// Reads the main document part (`word/document.xml`) with `quick_xml`
/// into a document: what [`parse_events`] gives for the events that
/// `quick_xml` reads from the bytes. Its paragraphs are numbered in order,
/// unmarked, and lie, in order and each non-empty, within the bytes; where
/// the body opens once they start inside it, and where it was also closed
/// they lie inside it.
pub fn parse_document(xml_bytes: &[u8]) -> (r: Result<Document, AppError>)
    ensures
        match document_of(xml_bytes@, xml_events(xml_bytes@)) {
            Ok(d) => r is Ok && r->Ok_0@ == d,
            Err(m) => r is Err && r->Err_0.0@ == m,
        },
        r matches Ok(d) ==> forall|k: int|
            0 <= k < d@.paragraphs.len() ==> (#[trigger] d@.paragraphs[k]).id == para_id(k as nat),
        r matches Ok(d) ==> ranges_in_order(d@.paragraphs) && ranges_ok(d@),
        r matches Ok(d) ==> forall|k: int|
            0 <= k < d@.paragraphs.len() ==> !(#[trigger] d@.paragraphs[k]).dirty && d@.paragraphs[k].byte_range.0
                < d@.paragraphs[k].byte_range.1,
        body_opens_once(xml_events(xml_bytes@)) ==> (r matches Ok(d) ==> forall|k: int|
            0 <= k < d@.paragraphs.len() ==> d@.body_inner_range.0 <= (#[trigger] d@.paragraphs[k]).byte_range.0),
        body_opens_once(xml_events(xml_bytes@)) ==> (r matches Ok(d) ==> (d@.body_inner_range.0
            <= d@.body_inner_range.1 ==> paragraphs_in_order(d@))),
{
    let evs = read_all_events(xml_bytes);
    proof {
        lemma_paragraph_ranges(xml_bytes@, evs@);
        lemma_paragraphs_in_body(xml_bytes@, evs@);
    }
    parse_events(xml_bytes, &evs)
}

} // verus!
