use docx_edit::upload::{source_ext_exec, UploadBatch};

const TYPES: &str = "<Types><Default Extension=\"xml\" ContentType=\"application/xml\"/></Types>";

#[test]
fn source_extensions_are_lower_case() {
    assert_eq!(source_ext_exec("/tmp/Photo.PNG"), "png");
    assert_eq!(source_ext_exec("notes"), "");
}

#[test]
fn unsupported_files_are_skipped() {
    let mut batch = UploadBatch::new(vec![], TYPES.to_string());
    assert_eq!(batch.plan("/tmp/tool.exe"), None);
    assert_eq!(batch.report, vec!["SKIP\t/tmp/tool.exe".to_string()]);
    assert_eq!(batch.plan("/tmp/Photo.JPG"), Some("word/media"));
    assert_eq!(batch.plan("/tmp/sheet.xlsx"), Some("word/embeddings"));
    assert_eq!(batch.report.len(), 1);
    assert!(batch.entries.is_empty());
    assert!(!batch.types_changed);
}

#[test]
fn added_files_get_free_names_and_types() {
    let taken = vec!["word/media/a.png".to_string()];
    let mut batch = UploadBatch::new(taken, TYPES.to_string());
    let first = batch.add("/tmp/a.png", "word/media", vec![1, 2]);
    assert_eq!(first, "word/media/a_1.png");
    let second = batch.add("/other/a.PNG", "word/media", vec![3]);
    assert_eq!(second, "word/media/a_2.png");
    assert!(batch.types_changed);
    assert_eq!(batch.types.matches("Extension=\"png\"").count(), 1);
    assert_eq!(
        batch.report,
        vec!["OK\tword/media/a_1.png".to_string(), "OK\tword/media/a_2.png".to_string()]
    );
    assert_eq!(batch.entries.len(), 2);
    assert_eq!(batch.entries[0], ("word/media/a_1.png".to_string(), vec![1, 2]));
    assert_eq!(batch.taken.len(), 3);
}

#[test]
fn declared_types_are_left_alone() {
    let mut batch = UploadBatch::new(vec![], TYPES.to_string());
    let entry = batch.add("/tmp/data.XML", "word/embeddings", vec![7]);
    assert_eq!(entry, "word/embeddings/data.xml");
    assert!(!batch.types_changed);
    assert_eq!(batch.types, TYPES);
}

#[test]
fn unreadable_files_are_reported() {
    let mut batch = UploadBatch::new(vec![], TYPES.to_string());
    batch.failed("/tmp/gone.pdf", "not found");
    assert_eq!(batch.report, vec!["ERR\t/tmp/gone.pdf\tnot found".to_string()]);
    assert!(batch.entries.is_empty());
}
