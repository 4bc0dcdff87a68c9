use docx_edit::parser::parse_document;
use docx_edit::save::rebuild_document_xml;
use docx_edit::structure::{build_first_run_rpr, find_paragraph, list_add, list_del, list_exit, list_item_paragraph, paragraph_range};

const W: &str = "xmlns:w=\"http://schemas.openxmlformats.org/wordprocessingml/2006/main\"";

fn doc_xml() -> String {
    format!(
        "<w:document {W}><w:body><w:p><w:pPr><w:pStyle w:val=\"ListNumber\"/><w:numPr><w:ilvl w:val=\"1\"/><w:numId w:val=\"4\"/></w:numPr><w:jc w:val=\"center\"/></w:pPr><w:r><w:rPr><w:b/><w:color w:val=\"FF0000\"/></w:rPr><w:t>Item</w:t></w:r></w:p><w:p><w:r><w:t>Plain</w:t></w:r></w:p></w:body></w:document>"
    )
}

#[test]
fn new_paragraph_takes_list_properties() {
    let doc = parse_document(doc_xml().as_bytes()).ok().unwrap();
    let p = &doc.paragraphs[0];
    assert_eq!(build_first_run_rpr(p), "<w:b/><w:color w:val=\"FF0000\"/>");
    assert_eq!(
        list_item_paragraph(p),
        "<w:p><w:pPr><w:pStyle w:val=\"ListNumber\"/><w:numPr><w:ilvl w:val=\"1\"/><w:numId w:val=\"4\"/></w:numPr><w:jc w:val=\"center\"/></w:pPr><w:r><w:rPr><w:b/><w:color w:val=\"FF0000\"/></w:rPr></w:r></w:p>"
    );
    assert_eq!(list_item_paragraph(&doc.paragraphs[1]), "<w:p/>");
}

#[test]
fn list_add_after_and_before() {
    let xml = doc_xml();
    let doc = parse_document(xml.as_bytes()).ok().unwrap();
    let (s, e) = paragraph_range(&doc, "P1").unwrap();
    let after = list_add(&doc, "P1", "after").ok().unwrap();
    let expected_after = format!("{}<w:p/>{}", &xml[..e], &xml[e..]);
    assert_eq!(after, expected_after.into_bytes());
    let before = list_add(&doc, "P1", "before").ok().unwrap();
    let expected_before = format!("{}<w:p/>{}", &xml[..s], &xml[s..]);
    assert_eq!(before, expected_before.into_bytes());
    assert_eq!(list_add(&doc, "P7", "after").err().unwrap().0, "Paragraph not found: P7");
}

#[test]
fn list_del_removes_only_that_paragraph() {
    let xml = doc_xml();
    let doc = parse_document(xml.as_bytes()).ok().unwrap();
    let (s, e) = paragraph_range(&doc, "P1").unwrap();
    let out = list_del(&doc, "P1").ok().unwrap();
    assert_eq!(out, format!("{}{}", &xml[..s], &xml[e..]).into_bytes());
    let again = parse_document(&out).ok().unwrap();
    assert_eq!(again.paragraphs.len(), 1);
    assert_eq!(list_del(&doc, "P2").err().unwrap().0, "Paragraph not found: P2");
}

#[test]
fn list_exit_clears_numbering() {
    let xml = doc_xml();
    let mut doc = parse_document(xml.as_bytes()).ok().unwrap();
    let (s, e) = doc.paragraphs[0].byte_range;
    assert_eq!(find_paragraph(&doc, "P0"), Some(0));
    list_exit(&mut doc, "P0").ok().unwrap();
    assert_eq!(doc.paragraphs[0].num_id, None);
    assert_eq!(doc.paragraphs[0].num_ilvl, None);
    assert!(doc.paragraphs[0].dirty);
    let out = String::from_utf8(rebuild_document_xml(&doc).ok().unwrap()).unwrap();
    let expected = format!("{}{}{}", &xml[..s], docx_edit::xml_emit::emit_paragraph(&doc.paragraphs[0]), &xml[e..]);
    assert_eq!(out, expected);
    assert!(!out.contains("w:numPr"));
    assert!(out.contains("Plain"));
    assert_eq!(list_exit(&mut doc, "X").err().unwrap().0, "Paragraph not found: X");
}
