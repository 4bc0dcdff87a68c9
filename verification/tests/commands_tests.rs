use docx_edit::commands::{parse_command, CommandKind};

fn args(v: &[&str]) -> Vec<String> {
    v.iter().map(|s| s.to_string()).collect()
}

#[test]
fn open_command() {
    let c = parse_command(&args(&["docx", "open", "a.docx"])).ok().unwrap();
    assert_eq!(c.kind, CommandKind::Open);
    assert_eq!(c.args, args(&["a.docx"]));
}

#[test]
fn setstyle_takes_four_operands() {
    let c = parse_command(&args(&["docx", "setstyle", "a.docx", "P1,P2", "color", "red", "extra"])).ok().unwrap();
    assert_eq!(c.kind, CommandKind::SetStyle);
    assert_eq!(c.args, args(&["a.docx", "P1,P2", "color", "red"]));
}

#[test]
fn optional_operands_take_defaults() {
    let c = parse_command(&args(&["docx", "listadd", "a.docx", "P3"])).ok().unwrap();
    assert_eq!(c.kind, CommandKind::ListAdd);
    assert_eq!(c.args, args(&["a.docx", "P3", "after"]));
    let c = parse_command(&args(&["docx", "listadd", "a.docx", "P3", "before"])).ok().unwrap();
    assert_eq!(c.args, args(&["a.docx", "P3", "before"]));
    let c = parse_command(&args(&["docx", "resizeimage", "a.docx", "P1", "fit"])).ok().unwrap();
    assert_eq!(c.kind, CommandKind::ResizeImage);
    assert_eq!(c.args, args(&["a.docx", "P1", "fit", ""]));
}

#[test]
fn missing_and_unknown() {
    assert_eq!(parse_command(&args(&["docx", "save", "a.docx"])).err().unwrap().0, "Missing argument: tmp_file");
    assert_eq!(parse_command(&args(&["docx", "insertimage"])).err().unwrap().0, "Missing argument: docx_file");
    assert_eq!(parse_command(&args(&["docx", "frobnicate"])).err().unwrap().0, "Unknown command: frobnicate");
}
