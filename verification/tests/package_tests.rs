use docx_edit::attach::{
    docpr_ids_readable_exec, find_attr_u64, next_docpr_id, next_rel_id, page_content_width_emu,
    rel_ids_readable_exec, replace_attr_all,
};
use docx_edit::package::{
    add_default_type, add_default_types, check_deletable, check_unreferenced, classify_upload_ext,
    guess_content_type, ole_progid, path_extension_exec, path_stem_exec, to_ascii_lowercase,
    unique_entry_name,
};

#[test]
fn content_types_by_extension() {
    assert_eq!(guess_content_type("PNG"), "image/png");
    assert_eq!(guess_content_type("jpeg"), "image/jpeg");
    assert_eq!(guess_content_type("xlsm"), "application/vnd.ms-excel.sheet.macroEnabled.12");
    assert_eq!(guess_content_type("rs"), "text/plain");
    assert_eq!(guess_content_type("xyz"), "application/octet-stream");
    assert_eq!(to_ascii_lowercase("AbC-Ä"), "abc-Ä");
}

#[test]
fn upload_folders() {
    assert_eq!(classify_upload_ext("JPG"), Some("word/media"));
    assert_eq!(classify_upload_ext("pdf"), Some("word/embeddings"));
    assert_eq!(classify_upload_ext("patch"), Some("word/embeddings"));
    assert_eq!(classify_upload_ext("exe"), None);
    assert_eq!(ole_progid("XLSX"), Some("Excel.Sheet.12"));
    assert_eq!(ole_progid("docx"), Some("Word.Document.12"));
    assert_eq!(ole_progid("pdf"), None);
}

#[test]
fn default_types_are_added_once() {
    let ct = "<Types><Default Extension=\"xml\" ContentType=\"application/xml\"/></Types>";
    let added = add_default_type(ct, "png").unwrap();
    assert_eq!(
        added,
        "<Types><Default Extension=\"xml\" ContentType=\"application/xml\"/><Default Extension=\"png\" ContentType=\"image/png\"/></Types>"
    );
    assert_eq!(add_default_type(&added, "png"), None);
    assert_eq!(add_default_type("<Types>", "png"), None);
    let both = add_default_types(ct, &vec!["png".to_string(), "xml".to_string(), "xlsx".to_string()]);
    assert!(both.contains("Extension=\"png\""));
    assert!(both.contains("Extension=\"xlsx\" ContentType=\"application/vnd.openxmlformats-officedocument.spreadsheetml.sheet\""));
    assert!(both.ends_with("</Types>"));
}

#[test]
fn unique_names_count_up() {
    let taken = vec!["word/media/a.png".to_string(), "word/media/a_1.png".to_string()];
    assert_eq!(unique_entry_name(&taken, "word/media", "a", "png"), "word/media/a_2.png");
    assert_eq!(unique_entry_name(&taken, "word/media", "b", "png"), "word/media/b.png");
    assert_eq!(unique_entry_name(&vec![], "word/embeddings", "x", "pdf"), "word/embeddings/x.pdf");
}

#[test]
fn path_parts() {
    assert_eq!(path_extension_exec("/tmp/x/photo.JPG"), Some("JPG".to_string()));
    assert_eq!(path_stem_exec("/tmp/x/photo.JPG"), Some("photo".to_string()));
    assert_eq!(path_extension_exec("archive.tar.gz"), Some("gz".to_string()));
    assert_eq!(path_stem_exec("archive.tar.gz"), Some("archive.tar".to_string()));
    assert_eq!(path_extension_exec(".bashrc"), None);
    assert_eq!(path_stem_exec(".bashrc"), Some(".bashrc".to_string()));
    assert_eq!(path_extension_exec("dir/noext"), None);
    assert_eq!(path_extension_exec("dir/file.txt/"), Some("txt".to_string()));
    assert_eq!(path_extension_exec("a/.."), None);
    assert_eq!(path_stem_exec("/"), None);
}

#[test]
fn relationship_numbers() {
    let rels = "<Relationships><Relationship Id=\"rId3\" Target=\"a\"/><Relationship Id=\"rId12\" Target=\"b\"/></Relationships>";
    assert!(rel_ids_readable_exec(rels));
    assert_eq!(next_rel_id(rels), "rId13");
    assert_eq!(next_rel_id("<Relationships></Relationships>"), "rId1");
    assert_eq!(next_rel_id("Id=\"rIdx Id=\"rId7\""), "rId8");
    // An identifier that runs into the one before it is passed over.
    assert_eq!(next_rel_id("Id=\"rId=\"rId5\""), "rId1");
    assert!(!rel_ids_readable_exec("Id=\"rId\u{e9}tail"));
}

#[test]
fn drawing_numbers() {
    let doc = "<wp:docPr id=\"4\" name=\"a\"/><wp:docPr id=\"2\"/>";
    assert!(docpr_ids_readable_exec(doc));
    assert_eq!(next_docpr_id(doc), 5);
    assert_eq!(next_docpr_id("<w:body/>"), 1);
}

#[test]
fn attribute_numbers() {
    let xml = "<wp:extent cx=\"100\" cy=\"50\"/><a:ext cx=\"100\" cy=\"50\"/>";
    assert_eq!(find_attr_u64(xml, "cx"), Some(100));
    assert_eq!(find_attr_u64(xml, "cy"), Some(50));
    assert_eq!(find_attr_u64(xml, "zz"), None);
    assert_eq!(find_attr_u64("cx=\"x\"", "cx"), None);
    let r = replace_attr_all(xml, "cx", 300);
    assert_eq!(r, "<wp:extent cx=\"300\" cy=\"50\"/><a:ext cx=\"300\" cy=\"50\"/>");
    assert_eq!(replace_attr_all("cx=\"\" cx=\"7\"", "cx", -2), "cx=\"\" cx=\"-2\"");
    assert_eq!(find_attr_u64(&r, "cx"), Some(300));
}

#[test]
fn page_width() {
    let doc = "<w:sectPr><w:pgSz w:w=\"11906\" w:h=\"16838\"/><w:pgMar w:top=\"1440\" w:right=\"1440\" w:bottom=\"1440\" w:left=\"1440\"/></w:sectPr>";
    assert_eq!(page_content_width_emu(doc), 9026 * 635);
    let narrow = "<w:pgSz w:w=\"1000\"/><w:pgMar w:left=\"900\" w:right=\"900\"/>";
    assert_eq!(page_content_width_emu(narrow), 635);
    assert_eq!(page_content_width_emu("<w:body/>"), 9026 * 635);
}

#[test]
fn deleting_files() {
    assert!(check_deletable("word/media/a.png").is_ok());
    assert_eq!(
        check_deletable("word/document.xml").err().unwrap().0,
        "Refusing to delete non-media file: word/document.xml"
    );
    let rels = vec![("rId1".to_string(), "media/a.png".to_string())];
    let msg = "Cannot delete 'a.png': file is still attached/referenced in the document. Remove the image/attachment from the text first.";
    assert_eq!(check_unreferenced("word/media/a.png", &rels, "").err().unwrap().0, msg);
    assert!(check_unreferenced("word/media/b.png", &rels, "<w:t>b.png</w:t>").is_ok());
    assert!(check_unreferenced("word/embeddings/b.pdf", &rels, "<w:t>[\u{1F4CE} b.pdf]</w:t>").is_err());
    let replaced = vec![
        ("rId1".to_string(), "media/a.png".to_string()),
        ("rId1".to_string(), "media/c.png".to_string()),
    ];
    assert!(check_unreferenced("word/media/a.png", &replaced, "").is_ok());
}

#[test]
fn rewrite_keeps_untouched_entries_in_order() {
    let names: Vec<String> = ["[Content_Types].xml", "word/document.xml", "word/media/a.png", "word/styles.xml"]
        .iter()
        .map(|s| s.to_string())
        .collect();
    let replaced = vec!["word/document.xml".to_string(), "word/new.xml".to_string()];
    let deleted = vec!["word/media/a.png".to_string()];
    assert_eq!(docx_edit::package::entries_kept(&names, &replaced, &deleted), vec![0, 3]);
    assert_eq!(docx_edit::package::entries_kept(&names, &vec![], &vec![]), vec![0, 1, 2, 3]);
    assert_eq!(docx_edit::package::entries_kept(&vec![], &replaced, &deleted), Vec::<usize>::new());
}

#[test]
fn content_types_change_only_when_needed() {
    let ct = "<Types><Default Extension=\"png\" ContentType=\"image/png\"/></Types>";
    assert_eq!(docx_edit::package::content_types_update(ct, &vec!["png".to_string()]), None);
    let up = docx_edit::package::content_types_update(ct, &vec!["png".to_string(), "xlsx".to_string()]).unwrap();
    assert!(up.contains("Extension=\"xlsx\""));
    assert!(up.ends_with("</Types>"));
}

#[test]
fn ole_icon_is_added_once() {
    assert!(docx_edit::attach::ole_icon_missing(&vec!["word/document.xml".to_string()]));
    assert!(!docx_edit::attach::ole_icon_missing(&vec![docx_edit::attach::ole_icon_path().to_string()]));
}
