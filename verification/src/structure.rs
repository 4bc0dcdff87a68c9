//! Edits that change which paragraphs a document has: adding an empty
//! paragraph next to another one, deleting a paragraph, and taking a
//! paragraph out of its list. They splice the original XML so that every
//! other paragraph keeps its bytes.

use vstd::prelude::*;
use vstd::string::StringExecFns;
use vstd::utf8::encode_utf8;
use crate::edit::first_text_run;
use crate::error::AppError;
use crate::model::{Document, DocV, ParaV, Paragraph, RunStyle, StyleV};
use crate::render::paras_view;
use crate::save::{
    find_para, find_para_exec, lemma_find_para, lemma_rebuild_one_changed, nothing_changed, only_changed,
    paragraphs_in_order, push_range, push_utf8, rebuild_bytes,
};
use crate::xml_emit::paragraph_xml;
use crate::text::{
    dec, has_prefix, idec, opt_equals, opt_starts_with, push_dec, push_idec, push_str, same_text,
};

verus! {

/// `<w:rFonts>` naming the font of a style in all scripts.
pub open spec fn font_prop(st: StyleV) -> Seq<char> {
    if st.font_name is Some {
        let f = st.font_name->0;
        "<w:rFonts w:ascii=\""@ + f + "\" w:hAnsi=\""@ + f + "\" w:cs=\""@ + f + "\"/>"@
    } else {
        Seq::empty()
    }
}

/// `<w:b/>` and `<w:i/>` of a style.
pub open spec fn weight_props(st: StyleV) -> Seq<char> {
    (if st.bold { "<w:b/>"@ } else { Seq::empty() }) + (if st.italic { "<w:i/>"@ } else { Seq::empty() })
}

/// `<w:sz>` and `<w:szCs>` of a style.
pub open spec fn size_prop(st: StyleV) -> Seq<char> {
    if st.size_half_pt is Some {
        let z = dec(st.size_half_pt->0 as nat);
        "<w:sz w:val=\""@ + z + "\"/><w:szCs w:val=\""@ + z + "\"/>"@
    } else {
        Seq::empty()
    }
}

/// `<w:color>` and `<w:highlight>` of a style.
pub open spec fn color_props(st: StyleV) -> Seq<char> {
    (if st.color_hex is Some {
        "<w:color w:val=\""@ + st.color_hex->0 + "\"/>"@
    } else {
        Seq::empty()
    }) + (if st.highlight is Some {
        "<w:highlight w:val=\""@ + st.highlight->0 + "\"/>"@
    } else {
        Seq::empty()
    })
}

/// The character properties of a style, with its values written as they
/// are.
pub open spec fn style_props(st: StyleV) -> Seq<char> {
    font_prop(st) + weight_props(st) + size_prop(st) + color_props(st)
}

/// The character properties of the first text run of `p` (see
/// [`style_props`]); nothing when the run has no formatting or there is
/// none.
pub open spec fn first_run_props(p: ParaV) -> Seq<char> {
    match first_text_run(p.runs) {
        None => Seq::empty(),
        Some(r) => if r.style.is_plain() {
            Seq::empty()
        } else {
            style_props(r.style)
        },
    }
}

fn push_font_prop(s: &mut String, st: &RunStyle)
    ensures
        final(s)@ == old(s)@ + font_prop(st@),
{
    if let Some(f) = &st.font_name {
        push_str(s, "<w:rFonts w:ascii=\"");
        push_str(s, f.as_str());
        push_str(s, "\" w:hAnsi=\"");
        push_str(s, f.as_str());
        push_str(s, "\" w:cs=\"");
        push_str(s, f.as_str());
        push_str(s, "\"/>");
    }
}

fn push_weight_props(s: &mut String, st: &RunStyle)
    ensures
        final(s)@ == old(s)@ + weight_props(st@),
{
    let ghost s0 = s@;
    if st.bold {
        push_str(s, "<w:b/>");
    }
    let ghost s1 = s@;
    if st.italic {
        push_str(s, "<w:i/>");
    }
    assert(s@ =~= s0 + weight_props(st@));
}

fn push_size_prop(s: &mut String, st: &RunStyle)
    ensures
        final(s)@ == old(s)@ + size_prop(st@),
{
    if let Some(z) = st.size_half_pt {
        push_str(s, "<w:sz w:val=\"");
        push_dec(s, z as u64);
        push_str(s, "\"/><w:szCs w:val=\"");
        push_dec(s, z as u64);
        push_str(s, "\"/>");
    }
}

fn push_color_props(s: &mut String, st: &RunStyle)
    ensures
        final(s)@ == old(s)@ + color_props(st@),
{
    let ghost s0 = s@;
    if let Some(c) = &st.color_hex {
        push_str(s, "<w:color w:val=\"");
        push_str(s, c.as_str());
        push_str(s, "\"/>");
    }
    if let Some(h) = &st.highlight {
        push_str(s, "<w:highlight w:val=\"");
        push_str(s, h.as_str());
        push_str(s, "\"/>");
    }
    assert(s@ =~= s0 + color_props(st@));
}

/// Appends the character properties of a style (see [`style_props`]).
fn push_style_props(s: &mut String, st: &RunStyle)
    ensures
        final(s)@ == old(s)@ + style_props(st@),
{
    let ghost s0 = s@;
    push_font_prop(s, st);
    push_weight_props(s, st);
    push_size_prop(s, st);
    push_color_props(s, st);
    assert(s@ =~= s0 + style_props(st@));
}

/// The character properties of the first text run of a paragraph (see
/// [`first_run_props`]).
pub fn build_first_run_rpr(p: &Paragraph) -> (s: String)
    ensures
        s@ == first_run_props(p@),
{
    let mut i: usize = 0;
    assert(p@.runs.skip(0) == p@.runs);
    while i < p.runs.len() && p.runs[i].is_drawing
        invariant
            i <= p.runs@.len(),
            first_text_run(p@.runs) == first_text_run(p@.runs.skip(i as int)),
        decreases p.runs@.len() - i,
    {
        assert(p@.runs.skip(i as int).drop_first() == p@.runs.skip(i + 1));
        i += 1;
    }
    let mut s = String::new();
    if i == p.runs.len() {
        return s;
    }
    assert(p@.runs.skip(i as int)[0] == p.runs@[i as int]@);
    let st = &p.runs[i].style;
    if st.is_default() {
        return s;
    }
    push_style_props(&mut s, st);
    s
}

/// The style of `p` where it is a list, heading or title style.
pub open spec fn kept_style_prop(p: ParaV) -> Seq<char> {
    if p.para_style is Some && (has_prefix(p.para_style->0, "List"@) || has_prefix(p.para_style->0, "Heading"@)
        || p.para_style->0 == "Title"@) {
        "<w:pStyle w:val=\""@ + p.para_style->0 + "\"/>"@
    } else {
        Seq::empty()
    }
}

/// The numbering of `p`, at level 0 when only the instance is given.
pub open spec fn kept_numbering_prop(p: ParaV) -> Seq<char> {
    if p.num_id is Some {
        let l: u32 = if p.num_ilvl is Some { p.num_ilvl->0 } else { 0 };
        "<w:numPr><w:ilvl w:val=\""@ + dec(l as nat) + "\"/><w:numId w:val=\""@ + dec(p.num_id->0 as nat)
            + "\"/></w:numPr>"@
    } else if p.num_ilvl is Some {
        "<w:numPr><w:ilvl w:val=\""@ + dec(p.num_ilvl->0 as nat) + "\"/></w:numPr>"@
    } else {
        Seq::empty()
    }
}

/// A non-zero indentation and the alignment of `p`.
pub open spec fn kept_layout_props(p: ParaV) -> Seq<char> {
    (if p.indent_twips is Some && p.indent_twips->0 != 0 {
        "<w:ind w:left=\""@ + idec(p.indent_twips->0 as int) + "\"/>"@
    } else {
        Seq::empty()
    }) + (if p.alignment is Some {
        "<w:jc w:val=\""@ + p.alignment->0 + "\"/>"@
    } else {
        Seq::empty()
    })
}

/// The paragraph properties that a paragraph added next to `p` takes
/// over: its style when it is a list, heading or title style, its
/// numbering, a non-zero indentation, and its alignment.
pub open spec fn list_item_ppr(p: ParaV) -> Seq<char> {
    kept_style_prop(p) + kept_numbering_prop(p) + kept_layout_props(p)
}

/// The XML of an empty paragraph added next to `p`: `p`'s paragraph
/// properties (see [`list_item_ppr`]) and an empty run with the character
/// properties of its first text run, each only where there is any.
pub open spec fn list_item_xml(p: ParaV) -> Seq<char> {
    let ppr = list_item_ppr(p);
    let rpr = first_run_props(p);
    let run = if rpr.len() == 0 { Seq::empty() } else { "<w:r><w:rPr>"@ + rpr + "</w:rPr></w:r>"@ };
    if ppr.len() == 0 && run.len() == 0 {
        "<w:p/>"@
    } else if run.len() == 0 {
        "<w:p><w:pPr>"@ + ppr + "</w:pPr></w:p>"@
    } else if ppr.len() == 0 {
        "<w:p>"@ + run + "</w:p>"@
    } else {
        "<w:p><w:pPr>"@ + ppr + "</w:pPr>"@ + run + "</w:p>"@
    }
}

fn push_kept_style(s: &mut String, p: &Paragraph)
    ensures
        final(s)@ == old(s)@ + kept_style_prop(p@),
{
    if opt_starts_with(&p.para_style, "List") || opt_starts_with(&p.para_style, "Heading") || opt_equals(&p.para_style, "Title") {
        if let Some(st) = &p.para_style {
            push_str(s, "<w:pStyle w:val=\"");
            push_str(s, st.as_str());
            push_str(s, "\"/>");
        }
    }
}

fn push_kept_numbering(s: &mut String, p: &Paragraph)
    ensures
        final(s)@ == old(s)@ + kept_numbering_prop(p@),
{
    if let Some(n) = p.num_id {
        let l: u32 = match p.num_ilvl {
            Some(l) => l,
            None => 0,
        };
        push_str(s, "<w:numPr><w:ilvl w:val=\"");
        push_dec(s, l as u64);
        push_str(s, "\"/><w:numId w:val=\"");
        push_dec(s, n as u64);
        push_str(s, "\"/></w:numPr>");
    } else if let Some(l) = p.num_ilvl {
        push_str(s, "<w:numPr><w:ilvl w:val=\"");
        push_dec(s, l as u64);
        push_str(s, "\"/></w:numPr>");
    }
}

fn push_kept_layout(s: &mut String, p: &Paragraph)
    ensures
        final(s)@ == old(s)@ + kept_layout_props(p@),
{
    let ghost s0 = s@;
    if let Some(ind) = p.indent_twips {
        if ind != 0 {
            push_str(s, "<w:ind w:left=\"");
            push_idec(s, ind as i64);
            push_str(s, "\"/>");
        }
    }
    if let Some(jc) = &p.alignment {
        push_str(s, "<w:jc w:val=\"");
        push_str(s, jc.as_str());
        push_str(s, "\"/>");
    }
    assert(s@ =~= s0 + kept_layout_props(p@));
}

/// Paragraph properties for a paragraph added next to `p`.
fn list_item_ppr_exec(p: &Paragraph) -> (s: String)
    ensures
        s@ == list_item_ppr(p@),
{
    let mut s = String::new();
    push_kept_style(&mut s, p);
    push_kept_numbering(&mut s, p);
    push_kept_layout(&mut s, p);
    assert(s@ =~= list_item_ppr(p@));
    s
}

/// The XML of an empty paragraph added next to `p` (see [`list_item_xml`]).
pub fn list_item_paragraph(p: &Paragraph) -> (s: String)
    ensures
        s@ == list_item_xml(p@),
{
    let ppr = list_item_ppr_exec(p);
    let rpr = build_first_run_rpr(p);
    let mut run = String::new();
    if !rpr.as_str().is_empty() {
        push_str(&mut run, "<w:r><w:rPr>");
        push_str(&mut run, rpr.as_str());
        push_str(&mut run, "</w:rPr></w:r>");
    }
    let mut s = String::new();
    if ppr.as_str().is_empty() && run.as_str().is_empty() {
        push_str(&mut s, "<w:p/>");
    } else if run.as_str().is_empty() {
        push_str(&mut s, "<w:p><w:pPr>");
        push_str(&mut s, ppr.as_str());
        push_str(&mut s, "</w:pPr></w:p>");
    } else if ppr.as_str().is_empty() {
        push_str(&mut s, "<w:p>");
        push_str(&mut s, run.as_str());
        push_str(&mut s, "</w:p>");
    } else {
        push_str(&mut s, "<w:p><w:pPr>");
        push_str(&mut s, ppr.as_str());
        push_str(&mut s, "</w:pPr>");
        push_str(&mut s, run.as_str());
        push_str(&mut s, "</w:p>");
    }
    assert(s@ =~= list_item_xml(p@));
    s
}

/// The index of the first paragraph named `para_id`.
pub fn find_paragraph(doc: &Document, para_id: &str) -> (r: Option<usize>)
    ensures
        match r {
            Some(i) => find_para(doc@.paragraphs, para_id@) == Some(i as nat) && i < doc@.paragraphs.len(),
            None => find_para(doc@.paragraphs, para_id@) is None,
        },
{
    assert(paras_view(doc.paragraphs@) =~= doc@.paragraphs);
    find_para_exec(&doc.paragraphs, para_id)
}

/// The byte range of the first paragraph named `para_id`.
pub fn paragraph_range(doc: &Document, para_id: &str) -> (r: Option<(usize, usize)>)
    ensures
        match find_para(doc@.paragraphs, para_id@) {
            Some(i) => r == Some(doc@.paragraphs[i as int].byte_range),
            None => r is None,
        },
{
    assert(paras_view(doc.paragraphs@) =~= doc@.paragraphs);
    match find_para_exec(&doc.paragraphs, para_id) {
        Some(i) => Some(doc.paragraphs[i].byte_range),
        None => None,
    }
}

/// Where a paragraph added next to `p` goes: at its start for `before`,
/// after its end otherwise.
pub open spec fn insert_pos(p: ParaV, position: Seq<char>) -> usize {
    if position == "before"@ {
        p.byte_range.0
    } else {
        p.byte_range.1
    }
}

/// The XML of the document with an empty paragraph added before or
/// after the first paragraph named `para_id` (see [`list_item_xml`]); the
/// error when there is none.
pub open spec fn list_added(d: DocV, para_id: Seq<char>, position: Seq<char>) -> Result<Seq<u8>, Seq<char>> {
    match find_para(d.paragraphs, para_id) {
        None => Err("Paragraph not found: "@ + para_id),
        Some(i) => {
            let p = d.paragraphs[i as int];
            let at = insert_pos(p, position) as int;
            Ok(d.original_xml.take(at) + encode_utf8(list_item_xml(p)) + d.original_xml.skip(at))
        },
    }
}

/// The place where the paragraph goes lies in the original XML.
pub open spec fn list_add_fits(d: DocV, para_id: Seq<char>, position: Seq<char>) -> bool {
    find_para(d.paragraphs, para_id) matches Some(i) ==> insert_pos(d.paragraphs[i as int], position)
        <= d.original_xml.len()
}

/// Adds an empty paragraph next to the first paragraph named `para_id`
/// and gives the new XML of the document (see [`list_added`]).
pub fn list_add(doc: &Document, para_id: &str, position: &str) -> (r: Result<Vec<u8>, AppError>)
    requires
        list_add_fits(doc@, para_id@, position@),
    ensures
        match list_added(doc@, para_id@, position@) {
            Ok(x) => r is Ok && r->Ok_0@ == x,
            Err(m) => r is Err && r->Err_0.0@ == m,
        },
{
    assert(paras_view(doc.paragraphs@) =~= doc@.paragraphs);
    match find_para_exec(&doc.paragraphs, para_id) {
        None => {
            let mut m = String::from_str("Paragraph not found: ");
            push_str(&mut m, para_id);
            Err(AppError(m))
        },
        Some(i) => {
            let p = &doc.paragraphs[i];
            let xml = list_item_paragraph(p);
            let at = if same_text(position, "before") { p.byte_range.0 } else { p.byte_range.1 };
            let n = doc.original_xml.len();
            let mut out: Vec<u8> = Vec::new();
            push_range(&mut out, &doc.original_xml, 0, at);
            push_utf8(&mut out, xml.as_str());
            push_range(&mut out, &doc.original_xml, at, n);
            assert(doc.original_xml@.subrange(0, at as int) =~= doc@.original_xml.take(at as int));
            assert(doc.original_xml@.subrange(at as int, n as int) =~= doc@.original_xml.skip(at as int));
            Ok(out)
        },
    }
}

/// The XML of the document without the bytes of the first paragraph
/// named `para_id`; the error when there is none.
pub open spec fn list_deleted(d: DocV, para_id: Seq<char>) -> Result<Seq<u8>, Seq<char>> {
    match find_para(d.paragraphs, para_id) {
        None => Err("Paragraph not found: "@ + para_id),
        Some(i) => {
            let p = d.paragraphs[i as int];
            Ok(d.original_xml.take(p.byte_range.0 as int) + d.original_xml.skip(p.byte_range.1 as int))
        },
    }
}

/// The paragraph to delete lies in the original XML.
pub open spec fn list_del_fits(d: DocV, para_id: Seq<char>) -> bool {
    find_para(d.paragraphs, para_id) matches Some(i) ==> d.paragraphs[i as int].byte_range.0 <= d.original_xml.len()
        && d.paragraphs[i as int].byte_range.1 <= d.original_xml.len()
}

/// Deletes the first paragraph named `para_id` and gives the new XML of
/// the document (see [`list_deleted`]).
pub fn list_del(doc: &Document, para_id: &str) -> (r: Result<Vec<u8>, AppError>)
    requires
        list_del_fits(doc@, para_id@),
    ensures
        match list_deleted(doc@, para_id@) {
            Ok(x) => r is Ok && r->Ok_0@ == x,
            Err(m) => r is Err && r->Err_0.0@ == m,
        },
{
    assert(paras_view(doc.paragraphs@) =~= doc@.paragraphs);
    match find_para_exec(&doc.paragraphs, para_id) {
        None => {
            let mut m = String::from_str("Paragraph not found: ");
            push_str(&mut m, para_id);
            Err(AppError(m))
        },
        Some(i) => {
            let (s, e) = doc.paragraphs[i].byte_range;
            let n = doc.original_xml.len();
            let mut out: Vec<u8> = Vec::new();
            push_range(&mut out, &doc.original_xml, 0, s);
            push_range(&mut out, &doc.original_xml, e, n);
            assert(doc.original_xml@.subrange(0, s as int) =~= doc@.original_xml.take(s as int));
            assert(doc.original_xml@.subrange(e as int, n as int) =~= doc@.original_xml.skip(e as int));
            Ok(out)
        },
    }
}

/// The document with the first paragraph named `para_id` taken out of
/// its list (no numbering instance or level) and marked changed.
pub open spec fn list_exited(d: DocV, para_id: Seq<char>) -> Result<DocV, Seq<char>> {
    match find_para(d.paragraphs, para_id) {
        None => Err("Paragraph not found: "@ + para_id),
        Some(i) => {
            let p = d.paragraphs[i as int];
            Ok(DocV {
                paragraphs: d.paragraphs.update(i as int, ParaV { num_id: None, num_ilvl: None, dirty: true, ..p }),
                ..d
            })
        },
    }
}

/// Takes the first paragraph named `para_id` out of its list.
pub fn list_exit(doc: &mut Document, para_id: &str) -> (r: Result<(), AppError>)
    ensures
        match list_exited(old(doc)@, para_id@) {
            Ok(d) => r is Ok && final(doc)@ == d,
            Err(m) => r is Err && r->Err_0.0@ == m && final(doc)@ == old(doc)@,
        },
{
    let ghost d0 = doc@;
    assert(paras_view(doc.paragraphs@) =~= d0.paragraphs);
    match find_para_exec(&doc.paragraphs, para_id) {
        None => {
            let mut m = String::from_str("Paragraph not found: ");
            push_str(&mut m, para_id);
            Err(AppError(m))
        },
        Some(i) => {
            let mut q = crate::model::clone_paragraph(&doc.paragraphs[i]);
            assert(q@ == d0.paragraphs[i as int]);
            q.num_id = None;
            q.num_ilvl = None;
            q.dirty = true;
            let ghost qv = q@;
            doc.paragraphs.set(i, q);
            assert(doc@.paragraphs =~= d0.paragraphs.update(i as int, qv));
            Ok(())
        },
    }
}


/// Taking a paragraph of an unchanged document out of its list, then
/// rebuilding the document, rewrites that paragraph alone: every other
/// byte of the original XML is kept.
pub proof fn lemma_list_exit_rewrites_one(d: DocV, para_id: Seq<char>)
    requires
        nothing_changed(d),
        paragraphs_in_order(d),
        d.paragraphs.len() <= usize::MAX,
    ensures
        list_exited(d, para_id) matches Ok(d2) ==> {
            let k = find_para(d.paragraphs, para_id)->0 as int;
            let p = d.paragraphs[k];
            rebuild_bytes(d2) == d.original_xml.take(p.byte_range.0 as int) + encode_utf8(
                paragraph_xml(ParaV { num_id: None, num_ilvl: None, dirty: true, ..p }),
            ) + d.original_xml.skip(p.byte_range.1 as int)
        },
{
    lemma_find_para(d.paragraphs, para_id);
    if let Some(i) = find_para(d.paragraphs, para_id) {
        let k = i as int;
        let d2 = list_exited(d, para_id)->Ok_0;
        assert forall|j: int| 0 <= j < d2.paragraphs.len() implies (#[trigger] d2.paragraphs[j]).byte_range
            == d.paragraphs[j].byte_range by {}
        assert(paragraphs_in_order(d2)) by {
            assert forall|a: int, b: int| 0 <= a < b < d2.paragraphs.len() implies (#[trigger] d2.paragraphs[a]).byte_range.1
                <= (#[trigger] d2.paragraphs[b]).byte_range.0 by {
                assert(d.paragraphs[a].byte_range.1 <= d.paragraphs[b].byte_range.0);
            }
            assert forall|a: int| 0 <= a < d2.paragraphs.len() implies d2.body_inner_range.0 <= (
            #[trigger] d2.paragraphs[a]).byte_range.0 <= d2.paragraphs[a].byte_range.1 <= d2.body_inner_range.1 by {
                assert(d.body_inner_range.0 <= d.paragraphs[a].byte_range.0 <= d.paragraphs[a].byte_range.1
                    <= d.body_inner_range.1);
            }
        }
        assert(only_changed(d2, k)) by {
            assert forall|j: int| 0 <= j < d2.paragraphs.len() && j != k implies !(#[trigger] d2.paragraphs[j]).dirty by {
                assert(!d.paragraphs[j].dirty);
            }
        }
        lemma_rebuild_one_changed(d2, k);
    }
}
} // verus!
