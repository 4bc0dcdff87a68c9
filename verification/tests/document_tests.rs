use docx_edit::numbering::parse_numbering;
use docx_edit::limits::{ranges_ok_exec, render_limits_exec, save_limits_exec};
use docx_edit::numbering::NumberingMap;
use docx_edit::parser::parse_document;
use docx_edit::render::render;
use docx_edit::save::{apply_buffer_to_document, rebuild_document_xml};
use docx_edit::xml_emit::{xml_escape_attr, xml_escape_text};

const DOC: &str = "<w:document xmlns:w=\"http://schemas.openxmlformats.org/wordprocessingml/2006/main\"><w:body><w:p><w:r><w:t>Hello</w:t></w:r></w:p><w:p><w:r><w:t>World</w:t></w:r></w:p><w:sectPr/></w:body></w:document>";

#[test]
fn parse_and_render() {
    let doc = parse_document(DOC.as_bytes()).ok().unwrap();
    assert_eq!(doc.paragraphs.len(), 2);
    assert_eq!(doc.paragraphs[0].id, "P0");
    assert_eq!(doc.paragraphs[1].id, "P1");
    assert!(render_limits_exec(&doc));
    let r = render(&doc, &NumberingMap::new());
    assert_eq!(r.text, "Hello\nWorld");
    assert_eq!(r.para_map, vec![(1, "P0".to_string()), (2, "P1".to_string())]);
}

#[test]
fn unchanged_document_rebuilds_to_same_bytes() {
    let doc = parse_document(DOC.as_bytes()).ok().unwrap();
    assert!(ranges_ok_exec(&doc));
    assert_eq!(rebuild_document_xml(&doc).ok().unwrap(), DOC.as_bytes().to_vec());
}

#[test]
fn saving_the_rendered_buffer_keeps_the_bytes() {
    let doc = parse_document(DOC.as_bytes()).ok().unwrap();
    let numbering = NumberingMap::new();
    assert!(save_limits_exec(&doc));
    let buffer = render(&doc, &numbering).text;
    assert_eq!(apply_buffer_to_document(&doc, &buffer, &numbering).ok().unwrap(), DOC.as_bytes().to_vec());
}

#[test]
fn edited_line_rewrites_only_its_paragraph() {
    let doc = parse_document(DOC.as_bytes()).ok().unwrap();
    let out = apply_buffer_to_document(&doc, "Hello\nWorld <3", &NumberingMap::new()).ok().unwrap();
    let text = String::from_utf8(out).unwrap();
    assert!(text.starts_with("<w:document xmlns:w=\"http://schemas.openxmlformats.org/wordprocessingml/2006/main\"><w:body><w:p><w:r><w:t>Hello</w:t></w:r></w:p>"));
    assert!(text.contains("World &lt;3"));
    assert!(text.ends_with("<w:sectPr/></w:body></w:document>"));
}

#[test]
fn escaping() {
    assert_eq!(xml_escape_text("a<b>&c\"'"), "a&lt;b&gt;&amp;c\"'");
    assert_eq!(xml_escape_attr("a<b>&c\"'"), "a&lt;b&gt;&amp;c&quot;&apos;");
}

#[test]
fn broken_xml_is_an_error() {
    assert!(parse_document(b"<w:document><w:body><w:p></w:body>").is_err());
}

#[test]
fn only_the_styled_paragraph_is_rewritten() {
    let mut doc = parse_document(DOC.as_bytes()).ok().unwrap();
    let (s, e) = doc.paragraphs[1].byte_range;
    docx_edit::style::set_style(&mut doc, "P1", "togglebold", "", None).ok().unwrap();
    let out = rebuild_document_xml(&doc).ok().unwrap();
    let new_para = docx_edit::xml_emit::emit_paragraph(&doc.paragraphs[1]);
    let mut expected = DOC.as_bytes()[..s].to_vec();
    expected.extend_from_slice(new_para.as_bytes());
    expected.extend_from_slice(&DOC.as_bytes()[e..]);
    assert_eq!(out, expected);
    assert!(new_para.contains("<w:b/>"));
}

#[test]
fn paragraphs_are_numbered_and_ordered() {
    let xml = "<w:document><w:body><w:p/><w:tbl><w:tr><w:tc><w:p><w:r><w:t>a</w:t></w:r></w:p></w:tc><w:tc><w:p/></w:tc></w:tr></w:tbl><w:p><w:r><w:t>b</w:t></w:r></w:p></w:body></w:document>";
    let doc = parse_document(xml.as_bytes()).ok().unwrap();
    assert_eq!(doc.paragraphs.len(), 4);
    for (k, p) in doc.paragraphs.iter().enumerate() {
        assert_eq!(p.id, format!("P{k}"));
        let (s, e) = p.byte_range;
        assert!(s < e && e <= xml.len());
        assert!(!p.dirty);
        assert!(doc.body_inner_range.0 <= s && e <= doc.body_inner_range.1);
        assert!(xml[s..e].starts_with("<w:p"));
        if k + 1 < doc.paragraphs.len() {
            assert!(e <= doc.paragraphs[k + 1].byte_range.0);
        }
    }
    assert_eq!(&xml[doc.paragraphs[0].byte_range.0..doc.paragraphs[0].byte_range.1], "<w:p/>");
}

#[test]
fn numbering_reader_error_gives_no_templates() {
    let good = b"<w:numbering><w:abstractNum w:abstractNumId=\"0\"><w:lvl w:ilvl=\"0\"><w:numFmt w:val=\"decimal\"/><w:lvlText w:val=\"%1.\"/></w:lvl></w:abstractNum><w:num w:numId=\"1\"><w:abstractNumId w:val=\"0\"/></w:num></w:numbering>";
    let m = parse_numbering(good).ok().unwrap();
    assert!(m.get(1, 0).is_some());
    let mut bad = good.to_vec();
    bad.extend_from_slice(b"</w:extra>");
    let m = parse_numbering(&bad).ok().unwrap();
    assert!(m.get(1, 0).is_none());
    let m = parse_numbering(b"<a></b>").ok().unwrap();
    assert!(m.levels.is_empty() && m.num_to_abstract.is_empty());
}

#[test]
fn trailing_newlines_do_not_matter_and_shell_is_kept() {
    let doc = parse_document(DOC.as_bytes()).ok().unwrap();
    let m = NumberingMap::new();
    assert!(save_limits_exec(&doc));
    let a = apply_buffer_to_document(&doc, "Hello\nWorld!", &m).ok().unwrap();
    let b = apply_buffer_to_document(&doc, "Hello\nWorld!\n", &m).ok().unwrap();
    assert_eq!(a, b);
    let (b0, b1) = doc.body_inner_range;
    assert!(a.starts_with(&DOC.as_bytes()[..b0]));
    assert!(a.ends_with(&DOC.as_bytes()[b1..]));
    let para = docx_edit::xml_emit::emit_paragraph(&doc.paragraphs[0]);
    assert!(para.starts_with("<w:p>") && para.ends_with("</w:p>"));
    assert_eq!(para, "<w:p><w:r><w:t>Hello</w:t></w:r></w:p>");
}

#[test]
fn inserts_go_around_their_kept_paragraph() {
    let mut doc = parse_document(DOC.as_bytes()).ok().unwrap();
    let (s, e) = doc.paragraphs[1].byte_range;
    doc.pending_inserts.push(("P1".to_string(), docx_edit::model::InsertPosition::After, "<w:p>A</w:p>".to_string()));
    doc.pending_inserts.push(("P1".to_string(), docx_edit::model::InsertPosition::Before, "<w:p>B</w:p>".to_string()));
    doc.pending_inserts.push(("P1".to_string(), docx_edit::model::InsertPosition::Before, "<w:p>C</w:p>".to_string()));
    let out = String::from_utf8(rebuild_document_xml(&doc).ok().unwrap()).unwrap();
    let expected = format!("{}<w:p>B</w:p><w:p>C</w:p>{}<w:p>A</w:p>{}", &DOC[..s], &DOC[s..e], &DOC[e..]);
    assert_eq!(out, expected);
}
