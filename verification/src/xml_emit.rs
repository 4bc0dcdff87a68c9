//! WordprocessingML for paragraphs changed in memory.

use vstd::prelude::*;
use crate::model::{opt_str, ParaV, Paragraph, Run, RunStyle, RunV, StyleV};
use crate::text::{
    chars_of, dec, idec, is_whitespace, is_ws, push_char, push_dec, push_idec, push_str, string_of,
};

verus! {

/// Escaping of one character of element text.
pub open spec fn esc_text_char(c: char) -> Seq<char> {
    if c == '&' {
        "&amp;"@
    } else if c == '<' {
        "&lt;"@
    } else if c == '>' {
        "&gt;"@
    } else {
        seq![c]
    }
}

/// Escaping of one character of an attribute value.
pub open spec fn esc_attr_char(c: char) -> Seq<char> {
    if c == '"' {
        "&quot;"@
    } else if c == '\'' {
        "&apos;"@
    } else {
        esc_text_char(c)
    }
}

/// `s` escaped for use as element text.
pub open spec fn esc_text(s: Seq<char>) -> Seq<char>
    decreases s.len(),
{
    if s.len() == 0 {
        Seq::empty()
    } else {
        esc_text(s.drop_last()) + esc_text_char(s.last())
    }
}

/// `s` escaped for use inside a double-quoted attribute value.
pub open spec fn esc_attr(s: Seq<char>) -> Seq<char>
    decreases s.len(),
{
    if s.len() == 0 {
        Seq::empty()
    } else {
        esc_attr(s.drop_last()) + esc_attr_char(s.last())
    }
}

/// Appends `s` escaped as element text.
pub fn push_escaped_text(out: &mut String, s: &str)
    ensures
        final(out)@ == old(out)@ + esc_text(s@),
{
    let v = chars_of(s);
    let mut i: usize = 0;
    while i < v.len()
        invariant
            v@ == s@,
            i <= v@.len(),
            out@ == old(out)@ + esc_text(v@.take(i as int)),
        decreases v@.len() - i,
    {
        let c = v[i];
        let ghost before = out@;
        if c == '&' {
            push_str(out, "&amp;");
        } else if c == '<' {
            push_str(out, "&lt;");
        } else if c == '>' {
            push_str(out, "&gt;");
        } else {
            push_char(out, c);
        }
        assert(out@ == before + esc_text_char(c));
        assert(v@.take(i + 1).drop_last() == v@.take(i as int));
        i += 1;
    }
    assert(v@.take(v@.len() as int) == v@);
}

/// Appends `s` escaped as an attribute value.
pub fn push_escaped_attr(out: &mut String, s: &str)
    ensures
        final(out)@ == old(out)@ + esc_attr(s@),
{
    let v = chars_of(s);
    let mut i: usize = 0;
    while i < v.len()
        invariant
            v@ == s@,
            i <= v@.len(),
            out@ == old(out)@ + esc_attr(v@.take(i as int)),
        decreases v@.len() - i,
    {
        let c = v[i];
        let ghost before = out@;
        if c == '&' {
            push_str(out, "&amp;");
        } else if c == '<' {
            push_str(out, "&lt;");
        } else if c == '>' {
            push_str(out, "&gt;");
        } else if c == '"' {
            push_str(out, "&quot;");
        } else if c == '\'' {
            push_str(out, "&apos;");
        } else {
            push_char(out, c);
        }
        assert(out@ == before + esc_attr_char(c));
        assert(v@.take(i + 1).drop_last() == v@.take(i as int));
        i += 1;
    }
    assert(v@.take(v@.len() as int) == v@);
}

/// Element text escaped: `&`, `<` and `>` become entity references.
pub fn xml_escape_text(s: &str) -> (r: String)
    ensures
        r@ == esc_text(s@),
{
    let mut out = String::new();
    push_escaped_text(&mut out, s);
    assert(out@ == Seq::<char>::empty() + esc_text(s@));
    out
}

/// Attribute value escaped: also `"` and `'` become entity references.
pub fn xml_escape_attr(s: &str) -> (r: String)
    ensures
        r@ == esc_attr(s@),
{
    let mut out = String::new();
    push_escaped_attr(&mut out, s);
    assert(out@ == Seq::<char>::empty() + esc_attr(s@));
    out
}


/// The `<w:t>` element for one line of a run (nothing for an empty line).
pub open spec fn t_elem(part: Seq<char>) -> Seq<char> {
    if part.len() == 0 {
        Seq::empty()
    } else if is_ws(part[0]) || is_ws(part.last()) {
        "<w:t xml:space=\"preserve\">"@ + esc_text(part) + "</w:t>"@
    } else {
        "<w:t>"@ + esc_text(part) + "</w:t>"@
    }
}

/// Text of a run: its lines (split at U+2028) as `<w:t>` elements,
/// separated by `<w:br/>`. `cur` is the line read so far.
pub open spec fn text_lines(s: Seq<char>, cur: Seq<char>) -> Seq<char>
    decreases s.len(),
{
    if s.len() == 0 {
        t_elem(cur)
    } else if s[0] == '\u{2028}' {
        t_elem(cur) + "<w:br/>"@ + text_lines(s.drop_first(), Seq::empty())
    } else {
        text_lines(s.drop_first(), cur.push(s[0]))
    }
}

/// `<w:rFonts>` for a font family.
pub open spec fn font_piece(st: StyleV) -> Seq<char> {
    if st.font_name is Some {
        let n = esc_attr(st.font_name->0);
        "<w:rFonts w:ascii=\""@ + n + "\" w:hAnsi=\""@ + n + "\" w:cs=\""@ + n + "\"/>"@
    } else {
        Seq::empty()
    }
}

/// `<w:b/>` for bold.
pub open spec fn bold_piece(st: StyleV) -> Seq<char> {
    if st.bold { "<w:b/>"@ } else { Seq::empty() }
}

/// `<w:i/>` for italic.
pub open spec fn italic_piece(st: StyleV) -> Seq<char> {
    if st.italic { "<w:i/>"@ } else { Seq::empty() }
}

/// `<w:sz>` and `<w:szCs>` for a size.
pub open spec fn size_piece(st: StyleV) -> Seq<char> {
    if st.size_half_pt is Some {
        let d = dec(st.size_half_pt->0 as nat);
        "<w:sz w:val=\""@ + d + "\"/>"@ + "<w:szCs w:val=\""@ + d + "\"/>"@
    } else {
        Seq::empty()
    }
}

/// `<w:color>` for a colour (written as it is held).
pub open spec fn color_piece(st: StyleV) -> Seq<char> {
    if st.color_hex is Some {
        "<w:color w:val=\""@ + st.color_hex->0 + "\"/>"@
    } else {
        Seq::empty()
    }
}

/// `<w:highlight>` for a highlight colour.
pub open spec fn highlight_piece(st: StyleV) -> Seq<char> {
    if st.highlight is Some {
        "<w:highlight w:val=\""@ + esc_attr(st.highlight->0) + "\"/>"@
    } else {
        Seq::empty()
    }
}

/// Character properties of a run: nothing for a plain run.
pub open spec fn rpr_xml(st: StyleV) -> Seq<char> {
    if st.is_plain() {
        Seq::empty()
    } else {
        "<w:rPr>"@ + font_piece(st) + bold_piece(st) + italic_piece(st) + size_piece(st)
            + color_piece(st) + highlight_piece(st) + "</w:rPr>"@
    }
}

/// `(a + b) + c == a + (b + c)`.
pub proof fn lemma_assoc(a: Seq<char>, b: Seq<char>, c: Seq<char>)
    ensures
        (a + b) + c == a + (b + c),
{
    assert((a + b) + c =~= a + (b + c));
}

/// XML of one run.
pub open spec fn run_xml(r: RunV) -> Seq<char> {
    if r.is_drawing {
        if r.drawing_xml is Some {
            r.drawing_xml->0
        } else {
            "<w:r><w:t/></w:r>"@
        }
    } else {
        "<w:r>"@ + rpr_xml(r.style) + text_lines(r.text, Seq::empty()) + "</w:r>"@
    }
}

/// XML of a sequence of runs.
pub open spec fn runs_xml(runs: Seq<RunV>) -> Seq<char>
    decreases runs.len(),
{
    if runs.len() == 0 {
        Seq::empty()
    } else {
        runs_xml(runs.drop_last()) + run_xml(runs.last())
    }
}

/// The paragraph carries paragraph properties.
pub open spec fn has_ppr(p: ParaV) -> bool {
    p.para_style is Some || p.alignment is Some || p.indent_twips is Some || p.num_id is Some
        || p.num_ilvl is Some
}

/// `<w:numPr>` for a list item (nothing when it is no list item).
pub open spec fn numpr_xml(num_id: Option<u32>, num_ilvl: Option<u32>) -> Seq<char> {
    if num_id is Some {
        let ilvl = if num_ilvl is Some { num_ilvl->0 } else { 0u32 };
        "<w:numPr><w:ilvl w:val=\""@ + dec(ilvl as nat) + "\"/><w:numId w:val=\""@ + dec(
            num_id->0 as nat,
        ) + "\"/></w:numPr>"@
    } else if num_ilvl is Some {
        "<w:numPr><w:ilvl w:val=\""@ + dec(num_ilvl->0 as nat) + "\"/></w:numPr>"@
    } else {
        Seq::empty()
    }
}

/// `<w:ind>` for a non-zero left indentation.
pub open spec fn ind_xml(ind: Option<i32>) -> Seq<char> {
    if ind is Some && ind->0 != 0 {
        "<w:ind w:left=\""@ + idec(ind->0 as int) + "\"/>"@
    } else {
        Seq::empty()
    }
}

/// `<w:jc>` for an alignment.
pub open spec fn jc_xml(jc: Option<Seq<char>>) -> Seq<char> {
    if jc is Some {
        "<w:jc w:val=\""@ + esc_attr(jc->0) + "\"/>"@
    } else {
        Seq::empty()
    }
}

/// `<w:pStyle>` for a paragraph style.
pub open spec fn pstyle_xml(st: Option<Seq<char>>) -> Seq<char> {
    if st is Some {
        "<w:pStyle w:val=\""@ + esc_attr(st->0) + "\"/>"@
    } else {
        Seq::empty()
    }
}

/// Paragraph properties of a re-emitted paragraph.
pub open spec fn ppr_xml(p: ParaV) -> Seq<char> {
    if has_ppr(p) {
        "<w:pPr>"@ + pstyle_xml(p.para_style) + numpr_xml(p.num_id, p.num_ilvl) + ind_xml(
            p.indent_twips,
        ) + jc_xml(p.alignment) + "</w:pPr>"@
    } else {
        Seq::empty()
    }
}

/// XML of a re-emitted paragraph.
pub open spec fn paragraph_xml(p: ParaV) -> Seq<char> {
    "<w:p>"@ + ppr_xml(p) + runs_xml(p.runs) + "</w:p>"@
}

/// Appends one line of run text as a `<w:t>` element.
fn push_t_elem(out: &mut String, part: &Vec<char>)
    ensures
        final(out)@ == old(out)@ + t_elem(part@),
{
    if part.len() == 0 {
        assert(old(out)@ + t_elem(part@) == old(out)@);
        return;
    }
    let preserve = is_whitespace(part[0]) || is_whitespace(part[part.len() - 1]);
    let ghost start = out@;
    if preserve {
        push_str(out, "<w:t xml:space=\"preserve\">");
    } else {
        push_str(out, "<w:t>");
    }
    let line = string_of(part.as_slice());
    push_escaped_text(out, line.as_str());
    push_str(out, "</w:t>");
    assert(part@.last() == part@[part@.len() - 1]);
    if preserve {
        assert(out@ == start + ("<w:t xml:space=\"preserve\">"@ + esc_text(part@) + "</w:t>"@));
    } else {
        assert(out@ == start + ("<w:t>"@ + esc_text(part@) + "</w:t>"@));
    }
}

/// Appends the text of a run, one `<w:t>` per line.
fn push_run_text(out: &mut String, text: &str)
    ensures
        final(out)@ == old(out)@ + text_lines(text@, Seq::empty()),
{
    let v = chars_of(text);
    let mut cur: Vec<char> = Vec::new();
    let mut i: usize = 0;
    let ghost whole = text_lines(v@, Seq::empty());
    assert(v@.skip(0) == v@);
    while i < v.len()
        invariant
            v@ == text@,
            i <= v@.len(),
            whole == text_lines(v@, Seq::empty()),
            old(out)@ + whole == out@ + text_lines(v@.skip(i as int), cur@),
        decreases v@.len() - i,
    {
        let c = v[i];
        let ghost rest = v@.skip(i as int);
        assert(rest[0] == c);
        assert(rest.drop_first() == v@.skip(i + 1));
        if c == '\u{2028}' {
            push_t_elem(out, &cur);
            push_str(out, "<w:br/>");
            cur = Vec::new();
            assert(cur@ == Seq::<char>::empty());
        } else {
            cur.push(c);
        }
        i += 1;
    }
    assert(v@.skip(i as int).len() == 0);
    push_t_elem(out, &cur);
}

/// Appends `<w:rFonts>` for a font family.
pub fn push_font_piece(out: &mut String, st: &RunStyle)
    ensures
        final(out)@ == old(out)@ + font_piece(st@),
{
    if let Some(font) = &st.font_name {
        let n = xml_escape_attr(font.as_str());
        let mut piece = String::new();
        push_str(&mut piece, "<w:rFonts w:ascii=\"");
        push_str(&mut piece, n.as_str());
        push_str(&mut piece, "\" w:hAnsi=\"");
        push_str(&mut piece, n.as_str());
        push_str(&mut piece, "\" w:cs=\"");
        push_str(&mut piece, n.as_str());
        push_str(&mut piece, "\"/>");
        assert(piece@ =~= font_piece(st@));
        push_str(out, piece.as_str());
    } else {
        assert(old(out)@ + font_piece(st@) =~= old(out)@);
    }
}

/// Appends `<w:sz>` and `<w:szCs>` for a size.
pub fn push_size_piece(out: &mut String, st: &RunStyle)
    ensures
        final(out)@ == old(out)@ + size_piece(st@),
{
    if let Some(sz) = st.size_half_pt {
        let mut piece = String::new();
        push_str(&mut piece, "<w:sz w:val=\"");
        push_dec(&mut piece, sz as u64);
        push_str(&mut piece, "\"/>");
        push_str(&mut piece, "<w:szCs w:val=\"");
        push_dec(&mut piece, sz as u64);
        push_str(&mut piece, "\"/>");
        assert(piece@ =~= size_piece(st@));
        push_str(out, piece.as_str());
    } else {
        assert(old(out)@ + size_piece(st@) =~= old(out)@);
    }
}

/// Appends `<w:color>` and `<w:highlight>` for a colour and a highlight.
fn push_colors(out: &mut String, st: &RunStyle)
    ensures
        final(out)@ == old(out)@ + color_piece(st@) + highlight_piece(st@),
{
    let mut piece = String::new();
    if let Some(col) = &st.color_hex {
        push_str(&mut piece, "<w:color w:val=\"");
        push_str(&mut piece, col.as_str());
        push_str(&mut piece, "\"/>");
    }
    assert(piece@ =~= color_piece(st@));
    let mut piece2 = String::new();
    if let Some(h) = &st.highlight {
        push_str(&mut piece2, "<w:highlight w:val=\"");
        push_escaped_attr(&mut piece2, h.as_str());
        push_str(&mut piece2, "\"/>");
    }
    assert(piece2@ =~= highlight_piece(st@));
    push_str(out, piece.as_str());
    push_str(out, piece2.as_str());
}

/// Appends the character properties of a run (nothing for a plain run).
fn push_rpr(out: &mut String, st: &RunStyle)
    ensures
        final(out)@ == old(out)@ + rpr_xml(st@),
{
    if st.is_default() {
        assert(old(out)@ + rpr_xml(st@) =~= old(out)@);
        return;
    }
    let mut r = String::new();
    push_str(&mut r, "<w:rPr>");
    push_font_piece(&mut r, st);
    if st.bold {
        push_str(&mut r, "<w:b/>");
    }
    assert(r@ =~= "<w:rPr>"@ + font_piece(st@) + bold_piece(st@));
    if st.italic {
        push_str(&mut r, "<w:i/>");
    }
    assert(r@ =~= "<w:rPr>"@ + font_piece(st@) + bold_piece(st@) + italic_piece(st@));
    push_size_piece(&mut r, st);
    push_colors(&mut r, st);
    push_str(&mut r, "</w:rPr>");
    assert(r@ =~= rpr_xml(st@));
    push_str(out, r.as_str());
}

/// Appends the XML of one run.
pub fn emit_run(run: &Run, s: &mut String)
    ensures
        final(s)@ == old(s)@ + run_xml(run@),
{
    if run.is_drawing {
        match &run.drawing_xml {
            Some(x) => push_str(s, x.as_str()),
            None => push_str(s, "<w:r><w:t/></w:r>"),
        }
        return;
    }
    let mut r = String::new();
    push_str(&mut r, "<w:r>");
    push_rpr(&mut r, &run.style);
    push_run_text(&mut r, run.text.as_str());
    push_str(&mut r, "</w:r>");
    assert(r@ =~= run_xml(run@));
    push_str(s, r.as_str());
}

/// `<w:pStyle>` for a paragraph style.
fn pstyle_string(st: &Option<String>) -> (r: String)
    ensures
        r@ == pstyle_xml(opt_str(*st)),
{
    let mut r = String::new();
    if let Some(style) = st {
        push_str(&mut r, "<w:pStyle w:val=\"");
        push_escaped_attr(&mut r, style.as_str());
        push_str(&mut r, "\"/>");
    }
    assert(r@ =~= pstyle_xml(opt_str(*st)));
    r
}

/// `<w:numPr>` for a list item.
pub fn numpr_string(num_id: Option<u32>, num_ilvl: Option<u32>) -> (r: String)
    ensures
        r@ == numpr_xml(num_id, num_ilvl),
{
    let mut r = String::new();
    if let Some(nid) = num_id {
        let ilvl = match num_ilvl {
            Some(l) => l,
            None => 0,
        };
        push_str(&mut r, "<w:numPr><w:ilvl w:val=\"");
        push_dec(&mut r, ilvl as u64);
        push_str(&mut r, "\"/><w:numId w:val=\"");
        push_dec(&mut r, nid as u64);
        push_str(&mut r, "\"/></w:numPr>");
    } else if let Some(ilvl) = num_ilvl {
        push_str(&mut r, "<w:numPr><w:ilvl w:val=\"");
        push_dec(&mut r, ilvl as u64);
        push_str(&mut r, "\"/></w:numPr>");
    }
    assert(r@ =~= numpr_xml(num_id, num_ilvl));
    r
}

/// `<w:ind>` for a non-zero indentation.
pub fn ind_string(ind: Option<i32>) -> (r: String)
    ensures
        r@ == ind_xml(ind),
{
    let mut r = String::new();
    if let Some(v) = ind {
        if v != 0 {
            push_str(&mut r, "<w:ind w:left=\"");
            push_idec(&mut r, v as i64);
            push_str(&mut r, "\"/>");
        }
    }
    assert(r@ =~= ind_xml(ind));
    r
}

/// `<w:jc>` for an alignment.
pub fn jc_string(jc: &Option<String>) -> (r: String)
    ensures
        r@ == jc_xml(opt_str(*jc)),
{
    let mut r = String::new();
    if let Some(v) = jc {
        push_str(&mut r, "<w:jc w:val=\"");
        push_escaped_attr(&mut r, v.as_str());
        push_str(&mut r, "\"/>");
    }
    assert(r@ =~= jc_xml(opt_str(*jc)));
    r
}

/// Paragraph properties, when `has` tells that there are any.
fn ppr_string(p: &Paragraph, has: bool) -> (r: String)
    requires
        has == has_ppr(p@),
    ensures
        r@ == ppr_xml(p@),
{
    let mut r = String::new();
    if has {
        push_str(&mut r, "<w:pPr>");
        let a = pstyle_string(&p.para_style);
        push_str(&mut r, a.as_str());
        let b = numpr_string(p.num_id, p.num_ilvl);
        push_str(&mut r, b.as_str());
        let c = ind_string(p.indent_twips);
        push_str(&mut r, c.as_str());
        let d = jc_string(&p.alignment);
        push_str(&mut r, d.as_str());
        push_str(&mut r, "</w:pPr>");
    }
    assert(r@ =~= ppr_xml(p@));
    r
}

/// The XML of a changed paragraph: its properties and runs.
pub fn emit_paragraph(p: &Paragraph) -> (s: String)
    ensures
        s@ == paragraph_xml(p@),
{
    let mut s = String::new();
    push_str(&mut s, "<w:p>");
    let has = p.para_style.is_some() || p.alignment.is_some() || p.indent_twips.is_some()
        || p.num_id.is_some() || p.num_ilvl.is_some();
    let ppr = ppr_string(p, has);
    push_str(&mut s, ppr.as_str());
    let mut i: usize = 0;
    let ghost s1 = s@;
    assert(s1 =~= "<w:p>"@ + ppr_xml(p@));
    while i < p.runs.len()
        invariant
            i <= p.runs@.len(),
            s@ == s1 + runs_xml(p@.runs.take(i as int)),
        decreases p.runs@.len() - i,
    {
        emit_run(&p.runs[i], &mut s);
        assert(p@.runs.take(i + 1).drop_last() == p@.runs.take(i as int));
        assert(p@.runs.take(i + 1).last() == p.runs@[i as int]@);
        i += 1;
    }
    assert(p@.runs.take(p.runs@.len() as int) == p@.runs);
    push_str(&mut s, "</w:p>");
    assert(s@ =~= paragraph_xml(p@));
    s
}


/// Escaped element text holds no `<` and no `>`: it cannot open, close or
/// end a tag, whatever the text.
pub proof fn lemma_esc_text_safe(s: Seq<char>)
    ensures
        forall|i: int| 0 <= i < esc_text(s).len() ==> #[trigger] esc_text(s)[i] != '<' && esc_text(s)[i] != '>',
    decreases s.len(),
{
    reveal_strlit("&amp;");
    reveal_strlit("&lt;");
    reveal_strlit("&gt;");
    if s.len() > 0 {
        lemma_esc_text_safe(s.drop_last());
        let a = esc_text(s.drop_last());
        let b = esc_text_char(s.last());
        assert forall|i: int| 0 <= i < (a + b).len() implies #[trigger] (a + b)[i] != '<' && (a + b)[i] != '>' by {
            if i >= a.len() {
                assert((a + b)[i] == b[i - a.len()]);
            } else {
                assert((a + b)[i] == a[i]);
            }
        }
    }
}

/// An escaped attribute value holds no `"`, `<` or `>`: it cannot end
/// the attribute it is written into, whatever the value.
pub proof fn lemma_esc_attr_safe(s: Seq<char>)
    ensures
        forall|i: int| 0 <= i < esc_attr(s).len() ==> #[trigger] esc_attr(s)[i] != '"' && esc_attr(s)[i] != '<'
            && esc_attr(s)[i] != '>',
    decreases s.len(),
{
    reveal_strlit("&amp;");
    reveal_strlit("&lt;");
    reveal_strlit("&gt;");
    reveal_strlit("&quot;");
    reveal_strlit("&apos;");
    if s.len() > 0 {
        lemma_esc_attr_safe(s.drop_last());
        let a = esc_attr(s.drop_last());
        let b = esc_attr_char(s.last());
        assert forall|i: int| 0 <= i < (a + b).len() implies #[trigger] (a + b)[i] != '"' && (a + b)[i] != '<' && (a
            + b)[i] != '>' by {
            if i >= a.len() {
                assert((a + b)[i] == b[i - a.len()]);
            } else {
                assert((a + b)[i] == a[i]);
            }
        }
    }
}


/// An emitted paragraph opens with `<w:p>` and closes with `</w:p>`; its
/// properties come right after the opening tag when it has a style, an
/// alignment, an indentation or list numbering, and otherwise only its
/// runs stand between the tags.
pub proof fn lemma_paragraph_xml_shape(p: ParaV)
    ensures
        paragraph_xml(p).take(5) == "<w:p>"@,
        paragraph_xml(p).skip(paragraph_xml(p).len() - 6) == "</w:p>"@,
        has_ppr(p) ==> paragraph_xml(p).skip(5).take(7) == "<w:pPr>"@,
        !has_ppr(p) ==> paragraph_xml(p) == "<w:p>"@ + runs_xml(p.runs) + "</w:p>"@,
{
    reveal_strlit("<w:p>");
    reveal_strlit("</w:p>");
    reveal_strlit("<w:pPr>");
    let x = paragraph_xml(p);
    let mid = ppr_xml(p) + runs_xml(p.runs);
    assert(x =~= "<w:p>"@ + mid + "</w:p>"@);
    assert(x.take(5) =~= "<w:p>"@);
    assert(x.skip(x.len() - 6) =~= "</w:p>"@);
    if has_ppr(p) {
        assert(x.skip(5).take(7) =~= "<w:pPr>"@);
    } else {
        assert(ppr_xml(p) =~= Seq::<char>::empty());
        assert(mid =~= runs_xml(p.runs));
    }
}
} // verus!
