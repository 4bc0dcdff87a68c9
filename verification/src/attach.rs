//! Attaching media to paragraphs: inline images, embedded Office files
//! shown as icons, and text markers that name an attached file.

use vstd::prelude::*;
use vstd::string::StringExecFns;
use crate::error::AppError;
use crate::model::{Document, DocV, ParaV, Paragraph, Run, RunStyle, RunV, opt_str};
use crate::package::{
    contains, contains_exec, insert_before_last, insert_before_last_exec, is_taken, lead_digits,
    lemma_scan_next_unused, names_view, number_after, occurrences_spaced, scan_max, scan_max_exec,
};
use crate::edit::{find_sub, find_sub_exec, occurs};
use crate::rels::{rel_for, rel_for_exec, rels_view};
use crate::render::paras_view;
use crate::save::{find_para, find_para_exec};
use crate::text::{
    chars_of, dec, digits_value, has_prefix, idec, is_digit, push_dec, push_idec, push_str,
    starts_with, string_of, string_of_range, trim, trim_str,
};
use crate::xml_emit::{esc_attr, push_escaped_attr};

verus! {

/// The path of a part relative to the `word/` folder, as relationships
/// inside it name it: `word/` taken off the front where it is there.
pub open spec fn word_relative(e: Seq<char>) -> Seq<char> {
    if has_prefix(e, "word/"@) {
        e.skip(5)
    } else {
        e
    }
}

/// The path of a part relative to the `word/` folder.
pub fn word_relative_exec(e: &str) -> (r: String)
    ensures
        r@ == word_relative(e@),
{
    let v = chars_of(e);
    if starts_with(e, "word/") {
        proof {
            reveal_strlit("word/");
        }
        string_of_range(v.as_slice(), 5, v.len())
    } else {
        string_of_range(v.as_slice(), 0, v.len())
    }
}

/// A package part named by a user: a path starting with `word/` is taken
/// as it is, any other name is looked for in `folder`.
pub open spec fn part_path(name: Seq<char>, folder: Seq<char>) -> Seq<char> {
    if has_prefix(name, "word/"@) {
        name
    } else {
        folder + "/"@ + name
    }
}

/// The package part that a user's name stands for (see [`part_path`]).
pub fn part_path_exec(name: &str, folder: &str) -> (r: String)
    ensures
        r@ == part_path(name@, folder@),
{
    if starts_with(name, "word/") {
        String::from_str(name)
    } else {
        let mut s = String::from_str(folder);
        push_str(&mut s, "/");
        push_str(&mut s, name);
        s
    }
}

/// The scan for relationship numbers can read the relationship part.
pub open spec fn rel_ids_readable(rels_text: Seq<char>) -> bool {
    scan_max(rels_text, "Id=\"rId"@, 0) is Some
}

/// A relationship number not used yet: one more than the largest number
/// of an `Id="rIdN"` (wrapping around past the largest 32-bit number).
pub open spec fn fresh_rel_number(rels_text: Seq<char>) -> u32 {
    scan_max(rels_text, "Id=\"rId"@, 0)->0.wrapping_add(1)
}

/// The relationship identifier for number `n`.
pub open spec fn rel_id_for(n: u32) -> Seq<char> {
    "rId"@ + dec(n as nat)
}

/// Whether the relationship part can be scanned for its numbers.
pub fn rel_ids_readable_exec(rels_text: &str) -> (b: bool)
    ensures
        b == rel_ids_readable(rels_text@),
{
    let v = chars_of(rels_text);
    let n = chars_of("Id=\"rId");
    scan_max_exec(&v, &n).is_some()
}

/// A relationship identifier not used yet in the relationship part.
pub fn next_rel_id(rels_text: &str) -> (r: String)
    requires
        rel_ids_readable(rels_text@),
    ensures
        r@ == rel_id_for(fresh_rel_number(rels_text@)),
{
    let n = fresh_rel_number_exec(rels_text);
    let mut s = String::from_str("rId");
    push_dec(&mut s, n as u64);
    s
}

/// A relationship number not used yet in the relationship part.
fn fresh_rel_number_exec(rels_text: &str) -> (n: u32)
    requires
        rel_ids_readable(rels_text@),
    ensures
        n == fresh_rel_number(rels_text@),
{
    let v = chars_of(rels_text);
    let needle = chars_of("Id=\"rId");
    match scan_max_exec(&v, &needle) {
        Some(m) => m.wrapping_add(1),
        None => 0,
    }
}

/// The scan for drawing numbers can read the document text.
pub open spec fn docpr_ids_readable(doc_text: Seq<char>) -> bool {
    scan_max(doc_text, "wp:docPr id=\""@, 0) is Some
}

/// A drawing number not used yet: one more than the largest
/// `wp:docPr id="N"` of the document (wrapping around).
pub open spec fn fresh_docpr_id(doc_text: Seq<char>) -> u32 {
    scan_max(doc_text, "wp:docPr id=\""@, 0)->0.wrapping_add(1)
}

/// Whether the document text can be scanned for its drawing numbers.
pub fn docpr_ids_readable_exec(doc_text: &str) -> (b: bool)
    ensures
        b == docpr_ids_readable(doc_text@),
{
    let v = chars_of(doc_text);
    let n = chars_of("wp:docPr id=\"");
    scan_max_exec(&v, &n).is_some()
}

/// A drawing number not used yet in the document text.
pub fn next_docpr_id(doc_text: &str) -> (r: u32)
    requires
        docpr_ids_readable(doc_text@),
    ensures
        r == fresh_docpr_id(doc_text@),
{
    let v = chars_of(doc_text);
    let needle = chars_of("wp:docPr id=\"");
    match scan_max_exec(&v, &needle) {
        Some(m) => m.wrapping_add(1),
        None => 0,
    }
}

/// A new relationship number is not the number of any identifier
/// `Id="rIdN"` of the part, where the identifiers do not run into one
/// another and 0 and the largest 32-bit number are not both used.
pub proof fn lemma_fresh_rel_number_unused(rels_text: Seq<char>)
    requires
        rel_ids_readable(rels_text),
        occurrences_spaced(rels_text, "Id=\"rId"@),
        forall|p: int, q: int|
            #![trigger occurs(rels_text, "Id=\"rId"@, p), occurs(rels_text, "Id=\"rId"@, q)]
            occurs(rels_text, "Id=\"rId"@, p) && occurs(rels_text, "Id=\"rId"@, q) && number_after(
                rels_text,
                "Id=\"rId"@,
                p,
            ) == Some(u32::MAX as nat) ==> number_after(rels_text, "Id=\"rId"@, q) != Some(0nat),
    ensures
        forall|p: int|
            #[trigger] occurs(rels_text, "Id=\"rId"@, p) && lead_digits(rels_text.skip(p + 7)).len() > 0
                ==> digits_value(lead_digits(rels_text.skip(p + 7))) != fresh_rel_number(rels_text),
{
    let needle = "Id=\"rId"@;
    reveal_strlit("Id=\"rId");
    assert(needle.len() == 7);
    assert forall|i: int| 0 <= i < needle.len() implies !is_digit(#[trigger] needle[i]) by {}
    lemma_scan_next_unused(rels_text, needle);
}

/// A new drawing number is not the number of any `wp:docPr id="N"` of the
/// document, where these do not run into one another and the numbers 0
/// and the largest 32-bit number are not both used.
pub proof fn lemma_fresh_docpr_id_unused(doc_text: Seq<char>)
    requires
        docpr_ids_readable(doc_text),
        occurrences_spaced(doc_text, "wp:docPr id=\""@),
        forall|p: int, q: int|
            #![trigger occurs(doc_text, "wp:docPr id=\""@, p), occurs(doc_text, "wp:docPr id=\""@, q)]
            occurs(doc_text, "wp:docPr id=\""@, p) && occurs(doc_text, "wp:docPr id=\""@, q) && number_after(
                doc_text,
                "wp:docPr id=\""@,
                p,
            ) == Some(u32::MAX as nat) ==> number_after(doc_text, "wp:docPr id=\""@, q) != Some(0nat),
    ensures
        forall|p: int|
            #[trigger] occurs(doc_text, "wp:docPr id=\""@, p) && lead_digits(doc_text.skip(p + 13)).len() > 0
                ==> digits_value(lead_digits(doc_text.skip(p + 13))) != fresh_docpr_id(doc_text),
{
    let needle = "wp:docPr id=\""@;
    reveal_strlit("wp:docPr id=\"");
    assert(needle.len() == 13);
    assert forall|i: int| 0 <= i < needle.len() implies !is_digit(#[trigger] needle[i]) by {}
    lemma_scan_next_unused(doc_text, needle);
}

/// A `<Relationship>` entry of the given kind
/// (`.../officeDocument/2006/relationships/<kind>`).
pub open spec fn rel_entry(id: Seq<char>, kind: Seq<char>, target: Seq<char>) -> Seq<char> {
    "<Relationship Id=\""@ + id + "\" Type=\"http://schemas.openxmlformats.org/officeDocument/2006/relationships/"@
        + kind + "\" Target=\""@ + target + "\"/>"@
}

/// Appends a `<Relationship>` entry.
fn push_rel_entry(s: &mut String, id: &str, kind: &str, target: &str)
    ensures
        final(s)@ == old(s)@ + rel_entry(id@, kind@, target@),
{
    push_str(s, "<Relationship Id=\"");
    push_str(s, id);
    push_str(s, "\" Type=\"http://schemas.openxmlformats.org/officeDocument/2006/relationships/");
    push_str(s, kind);
    push_str(s, "\" Target=\"");
    push_str(s, target);
    push_str(s, "\"/>");
}

/// The relationship of an image part `entry` and the relationship part to
/// write, or the error: an image that already has a relationship keeps it
/// (the part is written only when it did not exist); otherwise a new
/// image relationship with a fresh identifier goes before the closing
/// `</Relationships>`, and a part without one is refused.
pub open spec fn image_rel_plan(
    rels_text: Seq<char>,
    rels: Seq<(Seq<char>, Seq<char>)>,
    existed: bool,
    entry: Seq<char>,
) -> Result<(Seq<char>, Option<Seq<char>>), Seq<char>> {
    let target = word_relative(entry);
    match rel_for(rels, target) {
        Some(id) => Ok((id, if existed { None } else { Some(rels_text) })),
        None => {
            let id = rel_id_for(fresh_rel_number(rels_text));
            match insert_before_last(rels_text, "</Relationships>"@, rel_entry(id, "image"@, target)) {
                Some(t) => Ok((id, Some(t))),
                None => Err("Malformed document.xml.rels"@),
            }
        },
    }
}

/// The relationship for the image part `entry` and the relationship part
/// to write back (see [`image_rel_plan`]); `rels` are the relationships
/// read from `rels_text`, `existed` tells whether the part was there.
pub fn image_relationship(rels_text: &str, rels: &Vec<(String, String)>, existed: bool, entry: &str) -> (r: Result<(String, Option<String>), AppError>)
    requires
        rel_for(rels_view(rels@), word_relative(entry@)) is None ==> rel_ids_readable(rels_text@),
    ensures
        match image_rel_plan(rels_text@, rels_view(rels@), existed, entry@) {
            Ok((id, t)) => r is Ok && r->Ok_0.0@ == id && opt_str(r->Ok_0.1) == t,
            Err(m) => r is Err && r->Err_0.0@ == m,
        },
{
    let target = word_relative_exec(entry);
    match rel_for_exec(rels, target.as_str()) {
        Some(id) => {
            let t = if existed { None } else { Some(String::from_str(rels_text)) };
            Ok((id, t))
        },
        None => {
            let id = next_rel_id(rels_text);
            let mut add = String::new();
            push_rel_entry(&mut add, id.as_str(), "image", target.as_str());
            assert(add@ =~= rel_entry(id@, "image"@, target@));
            match insert_before_last_exec(rels_text, "</Relationships>", add.as_str()) {
                Some(t) => Ok((id, Some(t))),
                None => Err(AppError(String::from_str("Malformed document.xml.rels"))),
            }
        },
    }
}

/// The XML of a run that shows the image of relationship `rel_id` inline,
/// `cx` by `cy` EMU large, with drawing number `id` and the file `name`
/// as its description.
pub open spec fn drawing_run_xml(rel_id: Seq<char>, cx: i64, cy: i64, id: u32, name: Seq<char>) -> Seq<char> {
    let n = esc_attr(name);
    let i = dec(id as nat);
    "<w:r><w:drawing><wp:inline distT=\"0\" distB=\"0\" distL=\"0\" distR=\"0\" xmlns:wp=\"http://schemas.openxmlformats.org/drawingml/2006/wordprocessingDrawing\" xmlns:r=\"http://schemas.openxmlformats.org/officeDocument/2006/relationships\"><wp:extent cx=\""@
        + idec(cx as int) + "\" cy=\""@ + idec(cy as int)
        + "\"/><wp:effectExtent l=\"0\" t=\"0\" r=\"0\" b=\"0\"/><wp:docPr id=\""@ + i + "\" name=\"Picture "@ + i
        + "\" descr=\""@ + n
        + "\"/><wp:cNvGraphicFramePr><a:graphicFrameLocks xmlns:a=\"http://schemas.openxmlformats.org/drawingml/2006/main\" noChangeAspect=\"1\"/></wp:cNvGraphicFramePr><a:graphic xmlns:a=\"http://schemas.openxmlformats.org/drawingml/2006/main\"><a:graphicData uri=\"http://schemas.openxmlformats.org/drawingml/2006/picture\"><pic:pic xmlns:pic=\"http://schemas.openxmlformats.org/drawingml/2006/picture\"><pic:nvPicPr><pic:cNvPr id=\""@
        + i + "\" name=\""@ + n + "\"/><pic:cNvPicPr/></pic:nvPicPr><pic:blipFill><a:blip r:embed=\""@ + rel_id
        + "\"/><a:stretch><a:fillRect/></a:stretch></pic:blipFill><pic:spPr><a:xfrm><a:off x=\"0\" y=\"0\"/><a:ext cx=\""@
        + idec(cx as int) + "\" cy=\""@ + idec(cy as int)
        + "\"/></a:xfrm><a:prstGeom prst=\"rect\"><a:avLst/></a:prstGeom></pic:spPr></pic:pic></a:graphicData></a:graphic></wp:inline></w:drawing></w:r>"@
}

/// The XML of an inline image run (see [`drawing_run_xml`]).
pub fn build_drawing_run(rel_id: &str, cx: i64, cy: i64, id: u32, name: &str) -> (s: String)
    ensures
        s@ == drawing_run_xml(rel_id@, cx, cy, id, name@),
{
    let mut s = String::new();
    push_str(&mut s, "<w:r><w:drawing><wp:inline distT=\"0\" distB=\"0\" distL=\"0\" distR=\"0\" xmlns:wp=\"http://schemas.openxmlformats.org/drawingml/2006/wordprocessingDrawing\" xmlns:r=\"http://schemas.openxmlformats.org/officeDocument/2006/relationships\"><wp:extent cx=\"");
    push_idec(&mut s, cx);
    push_str(&mut s, "\" cy=\"");
    push_idec(&mut s, cy);
    push_str(&mut s, "\"/><wp:effectExtent l=\"0\" t=\"0\" r=\"0\" b=\"0\"/><wp:docPr id=\"");
    push_dec(&mut s, id as u64);
    push_str(&mut s, "\" name=\"Picture ");
    push_dec(&mut s, id as u64);
    push_str(&mut s, "\" descr=\"");
    push_escaped_attr(&mut s, name);
    push_str(&mut s, "\"/><wp:cNvGraphicFramePr><a:graphicFrameLocks xmlns:a=\"http://schemas.openxmlformats.org/drawingml/2006/main\" noChangeAspect=\"1\"/></wp:cNvGraphicFramePr><a:graphic xmlns:a=\"http://schemas.openxmlformats.org/drawingml/2006/main\"><a:graphicData uri=\"http://schemas.openxmlformats.org/drawingml/2006/picture\"><pic:pic xmlns:pic=\"http://schemas.openxmlformats.org/drawingml/2006/picture\"><pic:nvPicPr><pic:cNvPr id=\"");
    push_dec(&mut s, id as u64);
    push_str(&mut s, "\" name=\"");
    push_escaped_attr(&mut s, name);
    push_str(&mut s, "\"/><pic:cNvPicPr/></pic:nvPicPr><pic:blipFill><a:blip r:embed=\"");
    push_str(&mut s, rel_id);
    push_str(&mut s, "\"/><a:stretch><a:fillRect/></a:stretch></pic:blipFill><pic:spPr><a:xfrm><a:off x=\"0\" y=\"0\"/><a:ext cx=\"");
    push_idec(&mut s, cx);
    push_str(&mut s, "\" cy=\"");
    push_idec(&mut s, cy);
    push_str(&mut s, "\"/></a:xfrm><a:prstGeom prst=\"rect\"><a:avLst/></a:prstGeom></pic:spPr></pic:pic></a:graphicData></a:graphic></wp:inline></w:drawing></w:r>");
    assert(s@ =~= drawing_run_xml(rel_id@, cx, cy, id, name@));
    s
}

/// A new run that holds a drawing or object given by its XML.
pub open spec fn drawing_run(rel_id: Seq<char>, xml: Seq<char>) -> RunV {
    RunV {
        text: Seq::empty(),
        style: crate::style::plain_style(),
        is_drawing: true,
        rel_id: Some(rel_id),
        byte_range: None,
        media_name: None,
        drawing_xml: Some(xml),
    }
}

/// A new run of plain text.
pub open spec fn text_run(text: Seq<char>) -> RunV {
    RunV {
        text: text,
        style: crate::style::plain_style(),
        is_drawing: false,
        rel_id: None,
        byte_range: None,
        media_name: None,
        drawing_xml: None,
    }
}

/// The document with `run` appended to the first paragraph named
/// `para_id`, which is marked changed; the error when there is none.
pub open spec fn run_appended(d: DocV, para_id: Seq<char>, run: RunV) -> Result<DocV, Seq<char>> {
    match find_para(d.paragraphs, para_id) {
        Some(i) => {
            let p = d.paragraphs[i as int];
            Ok(DocV {
                paragraphs: d.paragraphs.update(i as int, ParaV { runs: p.runs.push(run), dirty: true, ..p }),
                ..d
            })
        },
        None => Err("Paragraph not found: "@ + para_id),
    }
}

/// Appends `run` to the first paragraph named `para_id`.
fn append_run(doc: &mut Document, para_id: &str, run: Run) -> (r: Result<(), AppError>)
    ensures
        match run_appended(old(doc)@, para_id@, run@) {
            Ok(d) => r is Ok && final(doc)@ == d,
            Err(m) => r is Err && r->Err_0.0@ == m && final(doc)@ == old(doc)@,
        },
{
    let ghost d0 = doc@;
    assert(paras_view(doc.paragraphs@) =~= d0.paragraphs);
    match find_para_exec(&doc.paragraphs, para_id) {
        None => {
            let mut m = String::from_str("Paragraph not found: ");
            push_str(&mut m, para_id);
            Err(AppError(m))
        },
        Some(i) => {
            let mut q = crate::model::clone_paragraph(&doc.paragraphs[i]);
            assert(q@ == d0.paragraphs[i as int]);
            let ghost rv = run@;
            q.runs.push(run);
            q.dirty = true;
            let ghost qv = q@;
            assert(qv.runs =~= d0.paragraphs[i as int].runs.push(rv));
            doc.paragraphs.set(i, q);
            assert(doc@.paragraphs =~= d0.paragraphs.update(i as int, qv));
            Ok(())
        },
    }
}

/// A style without formatting.
fn plain_run_style() -> (st: RunStyle)
    ensures
        st@ == crate::style::plain_style(),
{
    RunStyle { bold: false, italic: false, size_half_pt: None, color_hex: None, highlight: None, font_name: None }
}

/// Appends a drawing or object run, given by its XML and the relationship
/// it refers to, to the first paragraph named `para_id`.
pub fn add_drawing_run(doc: &mut Document, para_id: &str, rel_id: &str, xml: String) -> (r: Result<(), AppError>)
    ensures
        match run_appended(old(doc)@, para_id@, drawing_run(rel_id@, xml@)) {
            Ok(d) => r is Ok && final(doc)@ == d,
            Err(m) => r is Err && r->Err_0.0@ == m && final(doc)@ == old(doc)@,
        },
{
    let run = Run {
        text: String::new(),
        style: plain_run_style(),
        is_drawing: true,
        rel_id: Some(String::from_str(rel_id)),
        byte_range: None,
        media_name: None,
        drawing_xml: Some(xml),
    };
    append_run(doc, para_id, run)
}

/// Appends a run of plain text to the first paragraph named `para_id`.
pub fn add_text_run(doc: &mut Document, para_id: &str, text: &str) -> (r: Result<(), AppError>)
    ensures
        match run_appended(old(doc)@, para_id@, text_run(text@)) {
            Ok(d) => r is Ok && final(doc)@ == d,
            Err(m) => r is Err && r->Err_0.0@ == m && final(doc)@ == old(doc)@,
        },
{
    let run = Run {
        text: String::from_str(text),
        style: plain_run_style(),
        is_drawing: false,
        rel_id: None,
        byte_range: None,
        media_name: None,
        drawing_xml: None,
    };
    append_run(doc, para_id, run)
}

// ---------------------------------------------------------------------
// Embedded Office files shown as icons
// ---------------------------------------------------------------------

/// The package part of the icon that embedded objects show.
pub open spec fn ole_icon_entry() -> Seq<char> {
    "word/media/ole_icon.png"@
}

/// The package part of the icon that embedded objects show.
pub fn ole_icon_path() -> (s: &'static str)
    ensures
        s@ == ole_icon_entry(),
{
    "word/media/ole_icon.png"
}

/// Whether a package with the entries `names` lacks the icon, so that
/// embedding an object must add it.
pub fn ole_icon_missing(names: &Vec<String>) -> (b: bool)
    ensures
        b == !names_view(names@).contains(ole_icon_entry()),
{
    !is_taken(names, ole_icon_path())
}

/// The relationships an embedded file `entry` needs and the relationship
/// part to write, or the error: a new `package` relationship with a fresh
/// number `n`, and the icon's relationship, reused where one points at
/// the icon, else a new image relationship numbered `n + 1`; the new
/// entries go before the closing `</Relationships>`, and a part without
/// one is refused.
pub open spec fn ole_rel_plan(
    rels_text: Seq<char>,
    rels: Seq<(Seq<char>, Seq<char>)>,
    entry: Seq<char>,
) -> Result<(Seq<char>, Seq<char>, Seq<char>), Seq<char>> {
    let pkg_target = word_relative(entry);
    let icon_target = "media/ole_icon.png"@;
    let existing = rel_for(rels, icon_target);
    let n = fresh_rel_number(rels_text);
    let pkg = rel_id_for(n);
    let icon = match existing {
        Some(id) => id,
        None => rel_id_for(n.wrapping_add(1)),
    };
    let adds = rel_entry(pkg, "package"@, pkg_target) + (if existing is None {
        rel_entry(icon, "image"@, icon_target)
    } else {
        Seq::empty()
    });
    match insert_before_last(rels_text, "</Relationships>"@, adds) {
        Some(t) => Ok((pkg, icon, t)),
        None => Err("Malformed document.xml.rels"@),
    }
}

/// The relationships of an embedded file: its own, the icon's, and the
/// relationship part to write (see [`ole_rel_plan`]).
pub fn ole_relationships(rels_text: &str, rels: &Vec<(String, String)>, entry: &str) -> (r: Result<(String, String, String), AppError>)
    requires
        rel_ids_readable(rels_text@),
    ensures
        match ole_rel_plan(rels_text@, rels_view(rels@), entry@) {
            Ok((pkg, icon, t)) => r is Ok && r->Ok_0.0@ == pkg && r->Ok_0.1@ == icon && r->Ok_0.2@ == t,
            Err(m) => r is Err && r->Err_0.0@ == m,
        },
{
    let pkg_target = word_relative_exec(entry);
    let existing = rel_for_exec(rels, "media/ole_icon.png");
    let n = fresh_rel_number_exec(rels_text);
    let mut pkg = String::from_str("rId");
    push_dec(&mut pkg, n as u64);
    let icon = match &existing {
        Some(id) => id.clone(),
        None => {
            let mut s = String::from_str("rId");
            push_dec(&mut s, n.wrapping_add(1) as u64);
            s
        },
    };
    let mut adds = String::new();
    push_rel_entry(&mut adds, pkg.as_str(), "package", pkg_target.as_str());
    let ghost a1 = adds@;
    if existing.is_none() {
        push_rel_entry(&mut adds, icon.as_str(), "image", "media/ole_icon.png");
    }
    assert(adds@ =~= rel_entry(pkg@, "package"@, pkg_target@) + (if existing is None {
        rel_entry(icon@, "image"@, "media/ole_icon.png"@)
    } else {
        Seq::empty()
    }));
    match insert_before_last_exec(rels_text, "</Relationships>", adds.as_str()) {
        Some(t) => Ok((pkg, icon, t)),
        None => Err(AppError(String::from_str("Malformed document.xml.rels"))),
    }
}

/// The shape and object numbers of a new embedded object: a thousand
/// past a fresh drawing number, and that plus a billion (both wrapping
/// around like 32-bit arithmetic).
pub open spec fn ole_numbers(doc_text: Seq<char>) -> (u32, u32) {
    let shape = fresh_docpr_id(doc_text).wrapping_add(1000);
    (shape, 1_000_000_000u32.wrapping_add(shape))
}

/// The shape and object numbers of a new embedded object.
pub fn ole_ids(doc_text: &str) -> (r: (u32, u32))
    requires
        docpr_ids_readable(doc_text@),
    ensures
        r == ole_numbers(doc_text@),
{
    let shape = next_docpr_id(doc_text).wrapping_add(1000);
    (shape, 1_000_000_000u32.wrapping_add(shape))
}

/// The XML of a run that shows an embedded object as an icon 48 by 58
/// points large: the icon image of relationship `icon_rel`, the embedded
/// package of relationship `pkg_rel` with program identifier `prog_id`,
/// and the shape and object numbers.
pub open spec fn ole_run_xml(icon_rel: Seq<char>, pkg_rel: Seq<char>, prog_id: Seq<char>, shape_id: u32, obj_id: u32) -> Seq<char> {
    let sh = dec(shape_id as nat);
    "<w:r><w:object w:dxaOrig=\"960\" w:dyaOrig=\"1160\"><v:shapetype id=\"_x0000_t75\" coordsize=\"21600,21600\" o:spt=\"75\" o:preferrelative=\"t\" path=\"m@4@5l@4@11@9@11@9@5xe\" filled=\"f\" stroked=\"f\" xmlns:v=\"urn:schemas-microsoft-com:vml\" xmlns:o=\"urn:schemas-microsoft-com:office:office\"><v:stroke joinstyle=\"miter\"/><v:formulas><v:f eqn=\"if lineDrawn pixelLineWidth 0\"/><v:f eqn=\"sum @0 1 0\"/><v:f eqn=\"sum 0 0 @1\"/><v:f eqn=\"prod @2 1 2\"/><v:f eqn=\"prod @3 21600 pixelWidth\"/><v:f eqn=\"prod @3 21600 pixelHeight\"/><v:f eqn=\"sum @0 0 1\"/><v:f eqn=\"prod @6 1 2\"/><v:f eqn=\"prod @7 21600 pixelWidth\"/><v:f eqn=\"sum @8 21600 0\"/><v:f eqn=\"prod @7 21600 pixelHeight\"/><v:f eqn=\"sum @10 21600 0\"/></v:formulas><v:path o:extrusionok=\"f\" gradientshapeok=\"t\" o:connecttype=\"rect\"/><o:lock v:ext=\"edit\" aspectratio=\"t\"/></v:shapetype><v:shape id=\"_x0000_i"@
        + sh + "\" type=\"#_x0000_t75\" style=\"width:48pt;height:58pt\" o:ole=\"\" xmlns:v=\"urn:schemas-microsoft-com:vml\" xmlns:o=\"urn:schemas-microsoft-com:office:office\" xmlns:r=\"http://schemas.openxmlformats.org/officeDocument/2006/relationships\"><v:imagedata r:id=\""@
        + icon_rel + "\" o:title=\"\"/></v:shape><o:OLEObject Type=\"Embed\" ProgID=\""@ + prog_id
        + "\" ShapeID=\"_x0000_i"@ + sh + "\" DrawAspect=\"Icon\" ObjectID=\"_"@ + dec(obj_id as nat)
        + "\" r:id=\""@ + pkg_rel
        + "\" xmlns:o=\"urn:schemas-microsoft-com:office:office\" xmlns:r=\"http://schemas.openxmlformats.org/officeDocument/2006/relationships\"/></w:object></w:r>"@
}

/// The XML of an embedded object's run (see [`ole_run_xml`]).
pub fn build_ole_run(icon_rel: &str, pkg_rel: &str, prog_id: &str, shape_id: u32, obj_id: u32) -> (s: String)
    ensures
        s@ == ole_run_xml(icon_rel@, pkg_rel@, prog_id@, shape_id, obj_id),
{
    let mut s = String::new();
    push_str(&mut s, "<w:r><w:object w:dxaOrig=\"960\" w:dyaOrig=\"1160\"><v:shapetype id=\"_x0000_t75\" coordsize=\"21600,21600\" o:spt=\"75\" o:preferrelative=\"t\" path=\"m@4@5l@4@11@9@11@9@5xe\" filled=\"f\" stroked=\"f\" xmlns:v=\"urn:schemas-microsoft-com:vml\" xmlns:o=\"urn:schemas-microsoft-com:office:office\"><v:stroke joinstyle=\"miter\"/><v:formulas><v:f eqn=\"if lineDrawn pixelLineWidth 0\"/><v:f eqn=\"sum @0 1 0\"/><v:f eqn=\"sum 0 0 @1\"/><v:f eqn=\"prod @2 1 2\"/><v:f eqn=\"prod @3 21600 pixelWidth\"/><v:f eqn=\"prod @3 21600 pixelHeight\"/><v:f eqn=\"sum @0 0 1\"/><v:f eqn=\"prod @6 1 2\"/><v:f eqn=\"prod @7 21600 pixelWidth\"/><v:f eqn=\"sum @8 21600 0\"/><v:f eqn=\"prod @7 21600 pixelHeight\"/><v:f eqn=\"sum @10 21600 0\"/></v:formulas><v:path o:extrusionok=\"f\" gradientshapeok=\"t\" o:connecttype=\"rect\"/><o:lock v:ext=\"edit\" aspectratio=\"t\"/></v:shapetype><v:shape id=\"_x0000_i");
    push_dec(&mut s, shape_id as u64);
    push_str(&mut s, "\" type=\"#_x0000_t75\" style=\"width:48pt;height:58pt\" o:ole=\"\" xmlns:v=\"urn:schemas-microsoft-com:vml\" xmlns:o=\"urn:schemas-microsoft-com:office:office\" xmlns:r=\"http://schemas.openxmlformats.org/officeDocument/2006/relationships\"><v:imagedata r:id=\"");
    push_str(&mut s, icon_rel);
    push_str(&mut s, "\" o:title=\"\"/></v:shape><o:OLEObject Type=\"Embed\" ProgID=\"");
    push_str(&mut s, prog_id);
    push_str(&mut s, "\" ShapeID=\"_x0000_i");
    push_dec(&mut s, shape_id as u64);
    push_str(&mut s, "\" DrawAspect=\"Icon\" ObjectID=\"_");
    push_dec(&mut s, obj_id as u64);
    push_str(&mut s, "\" r:id=\"");
    push_str(&mut s, pkg_rel);
    push_str(&mut s, "\" xmlns:o=\"urn:schemas-microsoft-com:office:office\" xmlns:r=\"http://schemas.openxmlformats.org/officeDocument/2006/relationships\"/></w:object></w:r>");
    assert(s@ =~= ole_run_xml(icon_rel@, pkg_rel@, prog_id@, shape_id, obj_id));
    s
}

// ---------------------------------------------------------------------
// Markers that name an attached file
// ---------------------------------------------------------------------

/// Position of the last `/` or `\` among the first `n` characters of `s`.
pub open spec fn last_sep_below(s: Seq<char>, n: nat) -> Option<nat>
    decreases n,
{
    if n == 0 || n > s.len() {
        None
    } else if s[n - 1] == '/' || s[n - 1] == '\\' {
        Some((n - 1) as nat)
    } else {
        last_sep_below(s, (n - 1) as nat)
    }
}

/// The file name at the end of a path with `/` or `\` separators.
pub open spec fn base_name(s: Seq<char>) -> Seq<char> {
    match last_sep_below(s, s.len()) {
        Some(i) => s.skip(i + 1int),
        None => s,
    }
}

/// The file name at the end of a path.
pub fn base_name_exec(s: &str) -> (r: String)
    ensures
        r@ == base_name(s@),
{
    let v = chars_of(s);
    let mut n: usize = v.len();
    while n > 0 && v[n - 1] != '/' && v[n - 1] != '\\'
        invariant
            v@ == s@,
            n <= v@.len(),
            last_sep_below(v@, v@.len()) == last_sep_below(v@, n as nat),
        decreases n,
    {
        n -= 1;
    }
    if n == 0 {
        string_of_range(v.as_slice(), 0, v.len())
    } else {
        string_of_range(v.as_slice(), n, v.len())
    }
}

/// The text of the marker that names an attached file: the paper clip
/// and the trimmed file name of `file_name` in brackets; an error for an
/// empty name.
pub open spec fn file_marker(file_name: Seq<char>) -> Result<Seq<char>, Seq<char>> {
    let base = trim(base_name(file_name));
    if base.len() == 0 {
        Err("Empty file name"@)
    } else {
        Ok("[\u{1F4CE} "@ + base + "]"@)
    }
}

/// The text of the marker for an attached file (see [`file_marker`]).
pub fn file_marker_text(file_name: &str) -> (r: Result<String, AppError>)
    ensures
        match file_marker(file_name@) {
            Ok(t) => r is Ok && r->Ok_0@ == t,
            Err(m) => r is Err && r->Err_0.0@ == m,
        },
{
    let b = base_name_exec(file_name);
    let base = trim_str(b.as_str());
    if base.as_str().is_empty() {
        return Err(AppError(String::from_str("Empty file name")));
    }
    let mut t = String::from_str("[\u{1F4CE} ");
    push_str(&mut t, base.as_str());
    push_str(&mut t, "]");
    Ok(t)
}

// ---------------------------------------------------------------------
// Sizes of drawings
// ---------------------------------------------------------------------

/// The value of the first `attr="N"` in `xml`: the digits that follow
/// the first occurrence of `attr="`, when there are some and they fit a
/// signed 64-bit number.
pub open spec fn attr_number(xml: Seq<char>, attr: Seq<char>) -> Option<i64> {
    let needle = attr + "=\""@;
    match find_sub(xml, needle) {
        None => None,
        Some(p) => {
            let num = lead_digits(xml.skip((p + needle.len()) as int));
            if num.len() > 0 && digits_value(num) <= i64::MAX {
                Some(digits_value(num) as i64)
            } else {
                None
            }
        },
    }
}

/// Index just after the decimal digits that start at `from`.
fn digits_end(v: &Vec<char>, from: usize) -> (e: usize)
    requires
        from <= v@.len(),
    ensures
        from <= e <= v@.len(),
        lead_digits(v@.skip(from as int)) == v@.subrange(from as int, e as int),
        forall|i: int| from <= i < e ==> is_digit(#[trigger] v@[i]),
{
    let mut e: usize = from;
    while e < v.len() && '0' <= v[e] && v[e] <= '9'
        invariant
            from <= e <= v@.len(),
            forall|i: int| from <= i < e ==> is_digit(#[trigger] v@[i]),
        decreases v@.len() - e,
    {
        e += 1;
    }
    proof {
        let t = v@.skip(from as int);
        assert forall|i: int| 0 <= i < e - from implies is_digit(#[trigger] t[i]) by {
            assert(t[i] == v@[from + i]);
        }
        if e < v@.len() {
            assert(t[e - from] == v@[e as int]);
        }
        crate::package::lemma_lead_digits(t, (e - from) as nat);
        assert(t.take(e - from) =~= v@.subrange(from as int, e as int));
    }
    e
}

/// Value of the decimal digits `v[lo..hi]`, or `None` when it does not
/// fit a signed 64-bit number.
fn digits_i64(v: &Vec<char>, lo: usize, hi: usize) -> (r: Option<i64>)
    requires
        lo <= hi <= v@.len(),
        forall|i: int| lo <= i < hi ==> is_digit(#[trigger] v@[i]),
    ensures
        match r {
            Some(x) => digits_value(v@.subrange(lo as int, hi as int)) <= i64::MAX
                && x == digits_value(v@.subrange(lo as int, hi as int)),
            None => digits_value(v@.subrange(lo as int, hi as int)) > i64::MAX,
        },
{
    let mut acc: i64 = 0;
    let mut i: usize = lo;
    assert(v@.subrange(lo as int, lo as int) =~= Seq::<char>::empty());
    while i < hi
        invariant
            lo <= i <= hi <= v@.len(),
            forall|k: int| lo <= k < hi ==> is_digit(#[trigger] v@[k]),
            0 <= acc,
            acc == digits_value(v@.subrange(lo as int, i as int)),
        decreases hi - i,
    {
        let c = v[i];
        assert(is_digit(v@[i as int]));
        let d: i64 = ((c as u32) - 48) as i64;
        assert(v@.subrange(lo as int, i + 1).drop_last() == v@.subrange(lo as int, i as int));
        assert(v@.subrange(lo as int, i + 1).last() == c);
        if acc > (i64::MAX - d) / 10 {
            proof {
                lemma_digits_grow(v@, lo as int, (i + 1) as int, hi as int);
            }
            return None;
        }
        acc = acc * 10 + d;
        i += 1;
    }
    Some(acc)
}

/// More digits never make a smaller number.
proof fn lemma_digits_grow(v: Seq<char>, lo: int, mid: int, hi: int)
    requires
        0 <= lo <= mid <= hi <= v.len(),
        forall|k: int| lo <= k < hi ==> is_digit(#[trigger] v[k]),
    ensures
        digits_value(v.subrange(lo, mid)) <= digits_value(v.subrange(lo, hi)),
    decreases hi - mid,
{
    if mid < hi {
        lemma_digits_grow(v, lo, mid, hi - 1);
        assert(v.subrange(lo, hi).drop_last() == v.subrange(lo, hi - 1));
    }
}

/// The value of the first `attr="N"` in `xml` (see [`attr_number`]).
pub fn find_attr_u64(xml: &str, attr: &str) -> (r: Option<i64>)
    ensures
        r == attr_number(xml@, attr@),
{
    let mut needle = String::from_str(attr);
    push_str(&mut needle, "=\"");
    let v = chars_of(xml);
    let nv = chars_of(needle.as_str());
    match find_sub_exec(&v, &nv) {
        None => None,
        Some(p) => {
            proof {
                crate::edit::lemma_find_sub_occurs(v@, nv@);
            }
            let n = v.len();
            assert(p + nv@.len() <= n);
            let from = p + nv.len();
            let e = digits_end(&v, from);
            if e == from {
                return None;
            }
            digits_i64(&v, from, e)
        },
    }
}

/// The digits at the start of a text are no longer than it.
pub proof fn lemma_lead_digits_len(s: Seq<char>)
    ensures
        lead_digits(s).len() <= s.len(),
    decreases s.len(),
{
    if s.len() > 0 && is_digit(s[0]) {
        lemma_lead_digits_len(s.drop_first());
    }
}

/// `rest` with the number after every occurrence of `needle` replaced by
/// `v`: an occurrence followed by no digit is kept as it is and the
/// search goes on after it.
pub open spec fn numbers_replaced(rest: Seq<char>, needle: Seq<char>, v: i64) -> Seq<char>
    decreases rest.len(),
{
    if needle.len() == 0 {
        rest
    } else {
        match find_sub(rest, needle) {
            None => rest,
            Some(pos) => if pos + needle.len() > rest.len() {
                rest
            } else {
                let after = rest.skip((pos + needle.len()) as int);
                let d = lead_digits(after);
                proof {
                    lemma_lead_digits_len(after);
                }
                if d.len() == 0 {
                    rest.take(pos as int) + needle + numbers_replaced(after, needle, v)
                } else {
                    rest.take(pos as int) + needle + idec(v as int) + numbers_replaced(after.skip(d.len() as int), needle, v)
                }
            },
        }
    }
}

/// `xml` with every `attr="N"` given the value `v`.
pub open spec fn attr_replaced(xml: Seq<char>, attr: Seq<char>, v: i64) -> Seq<char> {
    numbers_replaced(xml, attr + "=\""@, v)
}

/// One step of [`numbers_replaced`]: the text up to and with the first
/// occurrence at `p` and the number after it replaced, and where the
/// rest starts.
fn replace_step(hay: &Vec<char>, nv: &Vec<char>, start: usize, p: usize, v: i64) -> (r: (String, usize))
    requires
        nv@.len() > 0,
        start <= p,
        p + nv@.len() <= hay@.len(),
        find_sub(hay@.skip(start as int), nv@) == Some((p - start) as nat),
    ensures
        p + nv@.len() <= r.1 <= hay@.len(),
        numbers_replaced(hay@.skip(start as int), nv@, v) == r.0@ + numbers_replaced(hay@.skip(r.1 as int), nv@, v),
{
    let ghost rest = hay@.skip(start as int);
    let ghost pos = (p - start) as nat;
    let hl = hay.len();
    let from = p + nv.len();
    let ghost after = rest.skip((pos + nv@.len()) as int);
    assert(after =~= hay@.skip(from as int));
    let e = digits_end(hay, from);
    let mut piece = string_of_range(hay.as_slice(), start, p);
    assert(piece@ =~= rest.take(pos as int));
    let needle = string_of(nv.as_slice());
    push_str(&mut piece, needle.as_str());
    assert(lead_digits(after).len() == e - from);
    if e == from {
        assert(numbers_replaced(rest, nv@, v) == rest.take(pos as int) + nv@ + numbers_replaced(after, nv@, v));
        (piece, from)
    } else {
        push_idec(&mut piece, v);
        assert(after.skip((e - from) as int) =~= hay@.skip(e as int));
        assert(numbers_replaced(rest, nv@, v) == rest.take(pos as int) + nv@ + idec(v as int)
            + numbers_replaced(after.skip((e - from) as int), nv@, v));
        (piece, e)
    }
}

/// Gives every `attr="N"` of `xml` the value `v` (see [`numbers_replaced`]).
pub fn replace_attr_all(xml: &str, attr: &str, v: i64) -> (r: String)
    ensures
        r@ == attr_replaced(xml@, attr@, v),
{
    let mut needle = String::from_str(attr);
    push_str(&mut needle, "=\"");
    proof {
        reveal_strlit("=\"");
    }
    let hay = chars_of(xml);
    let nv = chars_of(needle.as_str());
    let mut out = String::new();
    let mut start: usize = 0;
    let n = hay.len();
    assert(hay@.skip(0) == hay@);
    loop
        invariant
            n == hay@.len(),
            nv@.len() > 0,
            start <= hay@.len(),
            attr_replaced(xml@, attr@, v) == out@ + numbers_replaced(hay@.skip(start as int), nv@, v),
        decreases hay@.len() - start,
    {
        match crate::package::find_from(&hay, &nv, start) {
            None => {
                let tail = string_of_range(hay.as_slice(), start, n);
                assert(tail@ == hay@.skip(start as int));
                assert(numbers_replaced(tail@, nv@, v) == tail@);
                push_str(&mut out, tail.as_str());
                return out;
            },
            Some(p) => {
                let (piece, next) = replace_step(&hay, &nv, start, p, v);
                let ghost o0 = out@;
                push_str(&mut out, piece.as_str());
                assert(o0 + (piece@ + numbers_replaced(hay@.skip(next as int), nv@, v)) =~= out@
                    + numbers_replaced(hay@.skip(next as int), nv@, v));
                start = next;
            },
        }
    }
}

/// The width of the page's text area in EMU: the page width less the
/// left and right margins (`w:w` of `<w:pgSz`, `w:left` and `w:right` of
/// `<w:pgMar`, in twips), at least one twip, at 635 EMU a twip, the
/// arithmetic wrapping around like the machine's; without all three
/// values, an A4 page with one-inch margins.
pub open spec fn content_width(doc: Seq<char>) -> i64 {
    let pg_w = match find_sub(doc, "<w:pgSz"@) {
        Some(p) => attr_number(doc.skip(p as int), "w:w"@),
        None => None,
    };
    let (ml, mr) = match find_sub(doc, "<w:pgMar"@) {
        Some(p) => (attr_number(doc.skip(p as int), "w:left"@), attr_number(doc.skip(p as int), "w:right"@)),
        None => (None, None),
    };
    match (pg_w, ml, mr) {
        (Some(w), Some(l), Some(r)) => {
            let c = w.wrapping_sub(l).wrapping_sub(r);
            let c1: i64 = if c < 1 { 1 } else { c };
            c1.wrapping_mul(635)
        },
        _ => (9026 * 635) as i64,
    }
}

/// The width of the page's text area in EMU (see [`content_width`]).
pub fn page_content_width_emu(doc: &str) -> (r: i64)
    ensures
        r == content_width(doc@),
{
    let v = chars_of(doc);
    let pg = chars_of("<w:pgSz");
    proof {
        crate::edit::lemma_find_sub_occurs(v@, pg@);
    }
    let pg_w = match find_sub_exec(&v, &pg) {
        Some(p) => {
            let seg = string_of_range(v.as_slice(), p, v.len());
            assert(seg@ == doc@.skip(p as int));
            find_attr_u64(seg.as_str(), "w:w")
        },
        None => None,
    };
    let mar = chars_of("<w:pgMar");
    proof {
        crate::edit::lemma_find_sub_occurs(v@, mar@);
    }
    let (ml, mr) = match find_sub_exec(&v, &mar) {
        Some(p) => {
            let seg = string_of_range(v.as_slice(), p, v.len());
            assert(seg@ == doc@.skip(p as int));
            (find_attr_u64(seg.as_str(), "w:left"), find_attr_u64(seg.as_str(), "w:right"))
        },
        None => (None, None),
    };
    match (pg_w, ml, mr) {
        (Some(w), Some(l), Some(r)) => {
            let c = w.wrapping_sub(l).wrapping_sub(r);
            let c1: i64 = if c < 1 { 1 } else { c };
            c1.wrapping_mul(635)
        },
        _ => 9026i64 * 635,
    }
}

/// A drawing that can be resized: an inline picture (with an extent and
/// a picture fill or shape extent), not an embedded object.
pub open spec fn resizable(xml: Seq<char>) -> bool {
    !(contains(xml, "OLEObject"@) || contains(xml, "w:object"@)) && contains(xml, "wp:extent"@) && (contains(
        xml,
        "blip"@,
    ) || contains(xml, "a:ext"@))
}

/// Whether a drawing's XML is an inline picture that can be resized.
pub fn is_resizable(xml: &str) -> (b: bool)
    ensures
        b == resizable(xml@),
{
    !(contains_exec(xml, "OLEObject") || contains_exec(xml, "w:object")) && contains_exec(xml, "wp:extent") && (
    contains_exec(xml, "blip") || contains_exec(xml, "a:ext"))
}

/// The resize modes: `fit`, `width` and `height`, in any ASCII case.
pub open spec fn resize_mode(mode: Seq<char>) -> Result<Seq<char>, Seq<char>> {
    let m = crate::package::ascii_lower(mode);
    if m == "fit"@ || m == "width"@ || m == "height"@ {
        Ok(m)
    } else {
        Err("Invalid mode '"@ + m + "' (d\u{f9}ng: fit | width | height)"@)
    }
}

/// The resize mode in lower case, or the error for an unknown one.
pub fn check_resize_mode(mode: &str) -> (r: Result<String, AppError>)
    ensures
        match resize_mode(mode@) {
            Ok(m) => r is Ok && r->Ok_0@ == m,
            Err(e) => r is Err && r->Err_0.0@ == e,
        },
{
    let m = crate::package::to_ascii_lowercase(mode);
    if crate::text::same_text(m.as_str(), "fit") || crate::text::same_text(m.as_str(), "width") || crate::text::same_text(
        m.as_str(),
        "height",
    ) {
        Ok(m)
    } else {
        let mut e = String::from_str("Invalid mode '");
        push_str(&mut e, m.as_str());
        push_str(&mut e, "' (d\u{f9}ng: fit | width | height)");
        Err(AppError(e))
    }
}

/// The paragraph identifiers of a comma-separated list: each piece
/// trimmed, empty pieces left out.
pub open spec fn id_pieces(pieces: Seq<Seq<char>>) -> Seq<Seq<char>>
    decreases pieces.len(),
{
    if pieces.len() == 0 {
        Seq::empty()
    } else {
        let t = trim(pieces.last());
        if t.len() == 0 {
            id_pieces(pieces.drop_last())
        } else {
            id_pieces(pieces.drop_last()).push(t)
        }
    }
}

/// The paragraph identifiers listed in `para_ids`.
pub open spec fn id_list(para_ids: Seq<char>) -> Seq<Seq<char>> {
    id_pieces(crate::save::split_on(para_ids, ','))
}

/// The trimmed, non-empty pieces of `s` between occurrences of `sep`, in
/// order.
pub fn trimmed_pieces(s: &str, sep: char) -> (r: Vec<String>)
    ensures
        crate::package::names_view(r@) == id_pieces(crate::save::split_on(s@, sep)),
{
    let pv = chars_of(s);
    let pieces = crate::save::split_chars(&pv, sep);
    let ghost all = crate::diff::lines_view(pieces@);
    let mut out: Vec<String> = Vec::new();
    let mut k: usize = 0;
    while k < pieces.len()
        invariant
            all == crate::diff::lines_view(pieces@),
            k <= pieces@.len(),
            crate::package::names_view(out@) == id_pieces(all.take(k as int)),
        decreases pieces@.len() - k,
    {
        assert(all.take(k + 1).drop_last() == all.take(k as int));
        assert(all.take(k + 1).last() == pieces@[k as int]@);
        let piece = string_of(pieces[k].as_slice());
        let t = trim_str(piece.as_str());
        if !t.as_str().is_empty() {
            let ghost o = crate::package::names_view(out@);
            out.push(t);
            assert(crate::package::names_view(out@) =~= o.push(out@.last()@));
        }
        k += 1;
    }
    assert(all.take(all.len() as int) == all);
    out
}

/// The paragraph identifiers listed, separated by commas, in
/// `para_ids`; the error when there is none.
pub fn parse_id_list(para_ids: &str) -> (r: Result<Vec<String>, AppError>)
    ensures
        match r {
            Ok(v) => id_list(para_ids@).len() > 0 && crate::package::names_view(v@) == id_list(para_ids@),
            Err(e) => id_list(para_ids@).len() == 0 && e.0@ == "No paragraph id given"@,
        },
{
    let out = trimmed_pieces(para_ids, ',');
    if out.len() == 0 {
        return Err(AppError(String::from_str("No paragraph id given")));
    }
    Ok(out)
}

/// The drawings of the paragraphs whose identifier is listed: the index
/// of each such paragraph and of each of its drawing runs, in order.
pub open spec fn listed_drawings(ps: Seq<ParaV>, ids: Seq<Seq<char>>) -> Seq<(usize, usize)>
    decreases ps.len(),
{
    if ps.len() == 0 {
        Seq::empty()
    } else {
        let i = (ps.len() - 1) as int;
        let p = ps[i];
        let here = if ids.contains(p.id) {
            drawing_positions(p.runs, i as usize)
        } else {
            Seq::empty()
        };
        listed_drawings(ps.drop_last(), ids) + here
    }
}

/// The positions of the drawing runs of paragraph `pi`.
pub open spec fn drawing_positions(runs: Seq<RunV>, pi: usize) -> Seq<(usize, usize)>
    decreases runs.len(),
{
    if runs.len() == 0 {
        Seq::empty()
    } else {
        let rest = drawing_positions(runs.drop_last(), pi);
        if runs.last().is_drawing {
            rest.push((pi, (runs.len() - 1) as usize))
        } else {
            rest
        }
    }
}

/// Whether `ids` holds `id`.
fn holds_id(ids: &Vec<String>, id: &str) -> (b: bool)
    ensures
        b == crate::package::names_view(ids@).contains(id@),
{
    let mut i: usize = 0;
    while i < ids.len()
        invariant
            i <= ids@.len(),
            forall|k: int| 0 <= k < i ==> ids@[k]@ != id@,
        decreases ids@.len() - i,
    {
        if crate::text::same_text(ids[i].as_str(), id) {
            assert(crate::package::names_view(ids@)[i as int] == id@);
            return true;
        }
        i += 1;
    }
    assert forall|k: int| 0 <= k < crate::package::names_view(ids@).len() implies crate::package::names_view(ids@)[k] != id@ by {
        assert(crate::package::names_view(ids@)[k] == ids@[k]@);
    }
    false
}

/// The drawings of the paragraphs named in `ids` (see [`listed_drawings`]).
pub fn drawings_of(doc: &Document, ids: &Vec<String>) -> (r: Vec<(usize, usize)>)
    ensures
        r@ == listed_drawings(doc@.paragraphs, crate::package::names_view(ids@)),
{
    let ghost ps = doc@.paragraphs;
    let ghost iv = crate::package::names_view(ids@);
    let mut out: Vec<(usize, usize)> = Vec::new();
    let mut i: usize = 0;
    while i < doc.paragraphs.len()
        invariant
            ps == doc@.paragraphs,
            iv == crate::package::names_view(ids@),
            i <= ps.len(),
            out@ == listed_drawings(ps.take(i as int), iv),
        decreases ps.len() - i,
    {
        let p = &doc.paragraphs[i];
        assert(ps[i as int] == p@);
        assert(ps.take(i + 1).drop_last() == ps.take(i as int));
        assert(ps.take(i + 1)[i as int] == p@);
        if holds_id(ids, p.id.as_str()) {
            let mut j: usize = 0;
            let ghost base = out@;
            while j < p.runs.len()
                invariant
                    i < ps.len(),
                    p@ == ps[i as int],
                    j <= p.runs@.len(),
                    out@ == base + drawing_positions(p@.runs.take(j as int), i),
                decreases p.runs@.len() - j,
            {
                assert(p@.runs.take(j + 1).drop_last() == p@.runs.take(j as int));
                assert(p@.runs.take(j + 1).last() == p.runs@[j as int]@);
                if p.runs[j].is_drawing {
                    out.push((i, j));
                }
                j += 1;
            }
            assert(p@.runs.take(p@.runs.len() as int) == p@.runs);
        }
        i += 1;
    }
    assert(ps.take(ps.len() as int) == ps);
    out
}

/// The document with run `ri` of paragraph `pi` given the drawing XML
/// `xml` (its place in the original XML forgotten) and the paragraph
/// marked changed.
pub open spec fn drawing_replaced(d: DocV, pi: int, ri: int, xml: Seq<char>) -> DocV {
    let p = d.paragraphs[pi];
    let r = p.runs[ri];
    DocV {
        paragraphs: d.paragraphs.update(
            pi,
            ParaV { runs: p.runs.update(ri, RunV { drawing_xml: Some(xml), byte_range: None, ..r }), dirty: true, ..p },
        ),
        ..d
    }
}

/// Gives run `ri` of paragraph `pi` new drawing XML (see
/// [`drawing_replaced`]).
pub fn set_drawing_xml(doc: &mut Document, pi: usize, ri: usize, xml: String)
    requires
        pi < old(doc)@.paragraphs.len(),
        ri < old(doc)@.paragraphs[pi as int].runs.len(),
    ensures
        final(doc)@ == drawing_replaced(old(doc)@, pi as int, ri as int, xml@),
{
    let ghost d0 = doc@;
    let mut q = crate::model::clone_paragraph(&doc.paragraphs[pi]);
    assert(q@ == d0.paragraphs[pi as int]);
    let mut r = crate::model::clone_run(&q.runs[ri]);
    let ghost xv = xml@;
    r.drawing_xml = Some(xml);
    r.byte_range = None;
    let ghost rv = r@;
    q.runs.set(ri, r);
    q.dirty = true;
    let ghost qv = q@;
    assert(qv.runs =~= d0.paragraphs[pi as int].runs.update(ri as int, rv));
    doc.paragraphs.set(pi, q);
    assert(doc@.paragraphs =~= d0.paragraphs.update(pi as int, qv));
}

} // verus!
