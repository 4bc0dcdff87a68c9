use docx_edit::attach::{
    add_drawing_run, add_text_run, build_drawing_run, build_ole_run, check_resize_mode, drawings_of,
    file_marker_text, image_relationship, is_resizable, ole_ids, ole_relationships, parse_id_list,
    part_path_exec, set_drawing_xml, trimmed_pieces, word_relative_exec,
};
use docx_edit::parser::parse_document;
use docx_edit::save::rebuild_document_xml;

const DOC: &str = "<w:document xmlns:w=\"http://schemas.openxmlformats.org/wordprocessingml/2006/main\"><w:body><w:p><w:r><w:t>Text</w:t></w:r></w:p></w:body></w:document>";
const RELS: &str = "<Relationships><Relationship Id=\"rId2\" Type=\"t\" Target=\"media/image1.png\"/></Relationships>";

#[test]
fn part_names() {
    assert_eq!(part_path_exec("image2.png", "word/media"), "word/media/image2.png");
    assert_eq!(part_path_exec("word/media/x.png", "word/media"), "word/media/x.png");
    assert_eq!(word_relative_exec("word/media/x.png"), "media/x.png");
    assert_eq!(word_relative_exec("media/x.png"), "media/x.png");
}

#[test]
fn image_relationship_reused_or_added() {
    let rels = vec![("rId2".to_string(), "media/image1.png".to_string())];
    let (id, patch) = image_relationship(RELS, &rels, true, "word/media/image1.png").ok().unwrap();
    assert_eq!(id, "rId2");
    assert_eq!(patch, None);
    let (id, patch) = image_relationship(RELS, &rels, false, "word/media/image1.png").ok().unwrap();
    assert_eq!(id, "rId2");
    assert_eq!(patch, Some(RELS.to_string()));
    let (id, patch) = image_relationship(RELS, &rels, true, "word/media/image9.png").ok().unwrap();
    assert_eq!(id, "rId3");
    assert_eq!(
        patch.unwrap(),
        "<Relationships><Relationship Id=\"rId2\" Type=\"t\" Target=\"media/image1.png\"/><Relationship Id=\"rId3\" Type=\"http://schemas.openxmlformats.org/officeDocument/2006/relationships/image\" Target=\"media/image9.png\"/></Relationships>"
    );
    assert_eq!(
        image_relationship("<Relationships>", &vec![], true, "word/media/a.png").err().unwrap().0,
        "Malformed document.xml.rels"
    );
}

#[test]
fn ole_relationships_and_numbers() {
    let (pkg, icon, text) = ole_relationships(RELS, &vec![], "word/embeddings/book.xlsx").ok().unwrap();
    assert_eq!(pkg, "rId3");
    assert_eq!(icon, "rId4");
    assert!(text.contains("Id=\"rId3\" Type=\"http://schemas.openxmlformats.org/officeDocument/2006/relationships/package\" Target=\"embeddings/book.xlsx\""));
    assert!(text.contains("Id=\"rId4\" Type=\"http://schemas.openxmlformats.org/officeDocument/2006/relationships/image\" Target=\"media/ole_icon.png\""));
    let known = vec![("rId9".to_string(), "media/ole_icon.png".to_string())];
    let (pkg, icon, _) = ole_relationships(RELS, &known, "word/embeddings/book.xlsx").ok().unwrap();
    assert_eq!((pkg.as_str(), icon.as_str()), ("rId3", "rId9"));
    assert_eq!(ole_ids("<wp:docPr id=\"5\"/>"), (1006, 1_000_001_006));
    let xml = build_ole_run("rId4", "rId3", "Excel.Sheet.12", 1006, 1_000_001_006);
    assert!(xml.starts_with("<w:r><w:object w:dxaOrig=\"960\" w:dyaOrig=\"1160\">"));
    assert!(xml.contains("ProgID=\"Excel.Sheet.12\" ShapeID=\"_x0000_i1006\" DrawAspect=\"Icon\" ObjectID=\"_1000001006\" r:id=\"rId3\""));
    assert!(xml.contains("style=\"width:48pt;height:58pt\""));
}

#[test]
fn drawing_run_xml() {
    let xml = build_drawing_run("rId7", 360000, 180000, 3, "a&b.png");
    assert!(xml.contains("<wp:extent cx=\"360000\" cy=\"180000\"/>"));
    assert!(xml.contains("<wp:docPr id=\"3\" name=\"Picture 3\" descr=\"a&amp;b.png\"/>"));
    assert!(xml.contains("<a:blip r:embed=\"rId7\"/>"));
    assert!(is_resizable(&xml));
    assert!(!is_resizable("<w:object><o:OLEObject/></w:object>"));
}

#[test]
fn drawing_added_to_paragraph() {
    let mut doc = parse_document(DOC.as_bytes()).ok().unwrap();
    let xml = build_drawing_run("rId7", 10, 20, 1, "x.png");
    add_drawing_run(&mut doc, "P0", "rId7", xml.clone()).ok().unwrap();
    let p = &doc.paragraphs[0];
    assert!(p.dirty);
    assert_eq!(p.runs.len(), 2);
    assert!(p.runs[1].is_drawing);
    assert_eq!(p.runs[1].rel_id, Some("rId7".to_string()));
    let out = String::from_utf8(rebuild_document_xml(&doc).ok().unwrap()).unwrap();
    assert!(out.contains(&xml));
    assert_eq!(add_drawing_run(&mut doc, "P5", "rId7", xml).err().unwrap().0, "Paragraph not found: P5");
    let ids = vec!["P0".to_string()];
    assert_eq!(drawings_of(&doc, &ids), vec![(0, 1)]);
    set_drawing_xml(&mut doc, 0, 1, "<w:r/>".to_string());
    assert_eq!(doc.paragraphs[0].runs[1].drawing_xml, Some("<w:r/>".to_string()));
    assert_eq!(doc.paragraphs[0].runs[1].byte_range, None);
}

#[test]
fn file_markers() {
    assert_eq!(file_marker_text("C:\\docs\\report.pdf").ok().unwrap(), "[\u{1F4CE} report.pdf]");
    assert_eq!(file_marker_text(" notes.txt ").ok().unwrap(), "[\u{1F4CE} notes.txt]");
    assert_eq!(file_marker_text("dir/ ").err().unwrap().0, "Empty file name");
    let mut doc = parse_document(DOC.as_bytes()).ok().unwrap();
    add_text_run(&mut doc, "P0", "[\u{1F4CE} a.pdf]").ok().unwrap();
    assert_eq!(doc.paragraphs[0].runs[1].text, "[\u{1F4CE} a.pdf]");
}

#[test]
fn id_lists_and_modes() {
    assert_eq!(parse_id_list(" P1, ,P3 ").ok().unwrap(), vec!["P1".to_string(), "P3".to_string()]);
    assert_eq!(parse_id_list(" , ").err().unwrap().0, "No paragraph id given");
    assert_eq!(trimmed_pieces("a\r\n\n b \n", '\n'), vec!["a".to_string(), "b".to_string()]);
    assert_eq!(check_resize_mode("FIT").ok().unwrap(), "fit");
    assert_eq!(check_resize_mode("Stretch").err().unwrap().0, "Invalid mode 'stretch' (d\u{f9}ng: fit | width | height)");
}
