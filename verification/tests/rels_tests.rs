use docx_edit::parser::parse_document;
use docx_edit::rels::{
    entry_file_name_exec, extract_file_name, last_segment_exec, paragraph_media, parse_rels, rel_for_exec,
    rel_target_exec, resolve_media_names, target_entry_exec,
};

const RELS: &str = "<?xml version=\"1.0\"?><Relationships xmlns=\"http://schemas.openxmlformats.org/package/2006/relationships\"><Relationship Id=\"rId1\" Type=\"t\" Target=\"styles.xml\"/><Relationship Id=\"rId5\" Type=\"t\" Target=\"media/image1.png\"/><pr:Relationship Id=\"rId6\" Target=\"/word/media/abs.jpg\"/><Relationship Id=\"rId7\"/></Relationships>";

#[test]
fn relationships_are_read() {
    let rels = parse_rels(RELS.as_bytes());
    assert_eq!(
        rels,
        vec![
            ("rId1".to_string(), "styles.xml".to_string()),
            ("rId5".to_string(), "media/image1.png".to_string()),
            ("rId6".to_string(), "/word/media/abs.jpg".to_string()),
        ]
    );
    assert_eq!(rel_target_exec(&rels, "rId5"), Some("media/image1.png".to_string()));
    assert_eq!(rel_target_exec(&rels, "rId9"), None);
    assert_eq!(rel_for_exec(&rels, "media/image1.png"), Some("rId5".to_string()));
    assert_eq!(rel_for_exec(&rels, "image1.png"), Some("rId5".to_string()));
    assert_eq!(rel_for_exec(&rels, "other.png"), None);
}

#[test]
fn later_entries_win() {
    let rels = vec![("rId1".to_string(), "a".to_string()), ("rId1".to_string(), "b".to_string())];
    assert_eq!(rel_target_exec(&rels, "rId1"), Some("b".to_string()));
    assert_eq!(rel_for_exec(&rels, "a"), None);
}

#[test]
fn names_and_entries() {
    assert_eq!(last_segment_exec("media/image1.png"), "image1.png");
    assert_eq!(last_segment_exec("plain"), "plain");
    assert_eq!(target_entry_exec("media/a.png"), "word/media/a.png");
    assert_eq!(target_entry_exec("//word/media/a.png"), "word/media/a.png");
    assert_eq!(extract_file_name("P3", "word/media/a.png"), "docx_P3_a.png");
    assert_eq!(entry_file_name_exec("word/media\\x.png"), "docx_word_media_x.png");
}

const DOC: &str = "<w:document xmlns:w=\"http://schemas.openxmlformats.org/wordprocessingml/2006/main\" xmlns:r=\"http://schemas.openxmlformats.org/officeDocument/2006/relationships\" xmlns:a=\"http://schemas.openxmlformats.org/drawingml/2006/main\"><w:body><w:p><w:r><w:drawing><a:blip r:embed=\"rId5\"/></w:drawing></w:r></w:p></w:body></w:document>";

#[test]
fn media_of_drawings() {
    let rels = parse_rels(RELS.as_bytes());
    let mut doc = parse_document(DOC.as_bytes()).ok().unwrap();
    assert!(doc.paragraphs[0].runs.iter().any(|r| r.is_drawing));
    resolve_media_names(&mut doc, &rels);
    let run = doc.paragraphs[0].runs.iter().find(|r| r.is_drawing).unwrap();
    if run.rel_id.as_deref() == Some("rId5") {
        assert_eq!(run.media_name, Some("image1.png".to_string()));
        assert_eq!(paragraph_media(&doc.paragraphs[0], &rels), vec!["word/media/image1.png".to_string()]);
    }
}
