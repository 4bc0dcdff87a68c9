//! The in-memory model of one document: every paragraph of the body (also
//! those inside table cells, content controls and nested structures) in one
//! flat list, in the order in which they occur in the XML.
//!
//! Each paragraph remembers the byte range it occupies in the original XML,
//! so that a save can copy unchanged paragraphs byte for byte and re-emit
//! only the ones marked dirty.

use vstd::prelude::*;

verus! {

/// One run of text with a uniform character style.
pub struct Run {
    pub text: String,
    pub style: RunStyle,
    /// The run holds an image, shape or embedded object; it is shown as a
    /// placeholder and its text is never edited.
    pub is_drawing: bool,
    /// Relationship id of the media the drawing refers to, when known.
    pub rel_id: Option<String>,
    /// Byte range of the run in the original XML, when known.
    pub byte_range: Option<(usize, usize)>,
    /// File name of the media the drawing refers to, when resolved.
    pub media_name: Option<String>,
    /// Complete XML of the run, when it was built or changed in memory.
    pub drawing_xml: Option<String>,
}

/// Character formatting of a run.
pub struct RunStyle {
    pub bold: bool,
    pub italic: bool,
    pub size_half_pt: Option<u32>,
    /// Colour as upper-case hexadecimal `RRGGBB`.
    pub color_hex: Option<String>,
    /// Name of a standard highlight colour (`yellow`, `green`, ...).
    pub highlight: Option<String>,
    /// Font family of the run.
    pub font_name: Option<String>,
}

/// Where a paragraph stands in the structure of the body.
#[derive(PartialEq, Eq, Structural, Clone, Copy, Debug)]
pub enum ParaContext {
    Body,
    /// Inside a table cell: the nesting depth of tables, the row and column
    /// of the cell in its table, and whether the paragraph opens or closes
    /// a row.
    TableCell {
        table_depth: u32,
        row_idx: u32,
        col_idx: u32,
        is_first_in_row: bool,
        is_last_in_row: bool,
    },
    /// Inside a content control (`<w:sdtContent>`).
    Sdt,
}

/// Where a new paragraph goes relative to its anchor.
#[derive(PartialEq, Eq, Structural, Clone, Copy, Debug)]
pub enum InsertPosition {
    Before,
    After,
}

/// One paragraph of the body.
pub struct Paragraph {
    /// Identifier `P<n>`: the paragraph's ordinal in the document.
    pub id: String,
    pub runs: Vec<Run>,
    pub para_style: Option<String>,
    pub alignment: Option<String>,
    /// Left indentation in twips (1/20 point).
    pub indent_twips: Option<i32>,
    /// Numbering instance of a list item.
    pub num_id: Option<u32>,
    /// List level of a list item (0 = top level).
    pub num_ilvl: Option<u32>,
    /// Byte range of the whole `<w:p>` element in the original XML.
    pub byte_range: (usize, usize),
    /// The paragraph was changed and must be re-emitted on save.
    pub dirty: bool,
    pub context: ParaContext,
}

/// A parsed main document part.
pub struct Document {
    pub paragraphs: Vec<Paragraph>,
    /// Byte range of the content of `<w:body>` in the original XML.
    pub body_inner_range: (usize, usize),
    pub original_xml: Vec<u8>,
    /// Paragraphs removed by an edit: their byte range and identifier.
    pub deleted_ranges: Vec<(usize, usize, String)>,
    /// Paragraphs to be added on save: anchor identifier, side, and XML.
    pub pending_inserts: Vec<(String, InsertPosition, String)>,
}

/// The view of an optional string.
pub open spec fn opt_str(o: Option<String>) -> Option<Seq<char>> {
    match o {
        Some(s) => Some(s@),
        None => None,
    }
}

/// A run style as values.
pub struct StyleV {
    pub bold: bool,
    pub italic: bool,
    pub size_half_pt: Option<u32>,
    pub color_hex: Option<Seq<char>>,
    pub highlight: Option<Seq<char>>,
    pub font_name: Option<Seq<char>>,
}

/// A run as values.
pub struct RunV {
    pub text: Seq<char>,
    pub style: StyleV,
    pub is_drawing: bool,
    pub rel_id: Option<Seq<char>>,
    pub byte_range: Option<(usize, usize)>,
    pub media_name: Option<Seq<char>>,
    pub drawing_xml: Option<Seq<char>>,
}

/// A paragraph as values.
pub struct ParaV {
    pub id: Seq<char>,
    pub runs: Seq<RunV>,
    pub para_style: Option<Seq<char>>,
    pub alignment: Option<Seq<char>>,
    pub indent_twips: Option<i32>,
    pub num_id: Option<u32>,
    pub num_ilvl: Option<u32>,
    pub byte_range: (usize, usize),
    pub dirty: bool,
    pub context: ParaContext,
}

/// A document as values.
pub struct DocV {
    pub paragraphs: Seq<ParaV>,
    pub body_inner_range: (usize, usize),
    pub original_xml: Seq<u8>,
    pub deleted_ranges: Seq<(usize, usize, Seq<char>)>,
    pub pending_inserts: Seq<(Seq<char>, InsertPosition, Seq<char>)>,
}

impl View for RunStyle {
    type V = StyleV;

    open spec fn view(&self) -> StyleV {
        StyleV {
            bold: self.bold,
            italic: self.italic,
            size_half_pt: self.size_half_pt,
            color_hex: opt_str(self.color_hex),
            highlight: opt_str(self.highlight),
            font_name: opt_str(self.font_name),
        }
    }
}

impl View for Run {
    type V = RunV;

    open spec fn view(&self) -> RunV {
        RunV {
            text: self.text@,
            style: self.style@,
            is_drawing: self.is_drawing,
            rel_id: opt_str(self.rel_id),
            byte_range: self.byte_range,
            media_name: opt_str(self.media_name),
            drawing_xml: opt_str(self.drawing_xml),
        }
    }
}

impl View for Paragraph {
    type V = ParaV;

    open spec fn view(&self) -> ParaV {
        ParaV {
            id: self.id@,
            runs: self.runs@.map_values(|r: Run| r@),
            para_style: opt_str(self.para_style),
            alignment: opt_str(self.alignment),
            indent_twips: self.indent_twips,
            num_id: self.num_id,
            num_ilvl: self.num_ilvl,
            byte_range: self.byte_range,
            dirty: self.dirty,
            context: self.context,
        }
    }
}

impl View for Document {
    type V = DocV;

    open spec fn view(&self) -> DocV {
        DocV {
            paragraphs: self.paragraphs@.map_values(|p: Paragraph| p@),
            body_inner_range: self.body_inner_range,
            original_xml: self.original_xml@,
            deleted_ranges: self.deleted_ranges@.map_values(
                |d: (usize, usize, String)| (d.0, d.1, d.2@),
            ),
            pending_inserts: self.pending_inserts@.map_values(
                |d: (String, InsertPosition, String)| (d.0@, d.1, d.2@),
            ),
        }
    }
}

impl StyleV {
    /// The style carries no formatting at all.
    pub open spec fn is_plain(self) -> bool {
        &&& !self.bold
        &&& !self.italic
        &&& self.size_half_pt is None
        &&& self.color_hex is None
        &&& self.highlight is None
        &&& self.font_name is None
    }
}

impl RunStyle {
    /// The style carries no formatting at all.
    pub open spec fn spec_is_default(&self) -> bool {
        &&& !self.bold
        &&& !self.italic
        &&& self.size_half_pt is None
        &&& self.color_hex is None
        &&& self.highlight is None
        &&& self.font_name is None
    }

    /// True when the style carries no formatting at all.
    #[verifier::when_used_as_spec(spec_is_default)]
    pub fn is_default(&self) -> (res: bool)
        ensures
            res == self.spec_is_default(),
    {
        !self.bold && !self.italic && self.size_half_pt.is_none() && self.color_hex.is_none()
            && self.highlight.is_none() && self.font_name.is_none()
    }
}

/// A copy of an optional string.
pub fn clone_opt_string(o: &Option<String>) -> (r: Option<String>)
    ensures
        opt_str(r) == opt_str(*o),
{
    match o {
        Some(s) => Some(s.clone()),
        None => None,
    }
}

/// A copy of a run style.
pub fn clone_style(s: &RunStyle) -> (r: RunStyle)
    ensures
        r@ == s@,
{
    RunStyle {
        bold: s.bold,
        italic: s.italic,
        size_half_pt: s.size_half_pt,
        color_hex: clone_opt_string(&s.color_hex),
        highlight: clone_opt_string(&s.highlight),
        font_name: clone_opt_string(&s.font_name),
    }
}

/// A copy of a run.
pub fn clone_run(r: &Run) -> (c: Run)
    ensures
        c@ == r@,
{
    Run {
        text: r.text.clone(),
        style: clone_style(&r.style),
        is_drawing: r.is_drawing,
        rel_id: clone_opt_string(&r.rel_id),
        byte_range: r.byte_range,
        media_name: clone_opt_string(&r.media_name),
        drawing_xml: clone_opt_string(&r.drawing_xml),
    }
}

/// A copy of a paragraph.
pub fn clone_paragraph(p: &Paragraph) -> (c: Paragraph)
    ensures
        c@ == p@,
{
    let mut runs: Vec<Run> = Vec::new();
    let mut i: usize = 0;
    while i < p.runs.len()
        invariant
            i <= p.runs@.len(),
            runs@.len() == i,
            forall|k: int| 0 <= k < i ==> (#[trigger] runs@[k])@ == p.runs@[k]@,
        decreases p.runs@.len() - i,
    {
        runs.push(clone_run(&p.runs[i]));
        i += 1;
    }
    let c = Paragraph {
        id: p.id.clone(),
        runs,
        para_style: clone_opt_string(&p.para_style),
        alignment: clone_opt_string(&p.alignment),
        indent_twips: p.indent_twips,
        num_id: p.num_id,
        num_ilvl: p.num_ilvl,
        byte_range: p.byte_range,
        dirty: p.dirty,
        context: p.context,
    };
    assert(c@.runs =~= p@.runs);
    c
}

} // verus!
