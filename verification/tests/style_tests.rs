use docx_edit::model::{ParaContext, Paragraph, Run, RunStyle};
use docx_edit::parser::parse_document;
use docx_edit::style::{apply_style_attr, parse_color, set_style};

fn style() -> RunStyle {
    RunStyle { bold: false, italic: false, size_half_pt: None, color_hex: None, highlight: None, font_name: None }
}

fn run(text: &str, bold: bool) -> Run {
    Run {
        text: text.to_string(),
        style: RunStyle { bold, ..style() },
        is_drawing: false,
        rel_id: None,
        byte_range: None,
        media_name: None,
        drawing_xml: None,
    }
}

fn para(runs: Vec<Run>) -> Paragraph {
    Paragraph {
        id: "P0".to_string(),
        runs,
        para_style: None,
        alignment: None,
        indent_twips: None,
        num_id: None,
        num_ilvl: None,
        byte_range: (0, 0),
        dirty: false,
        context: ParaContext::Body,
    }
}

fn err_of(r: Result<(), docx_edit::error::AppError>) -> String {
    match r {
        Ok(()) => panic!("expected an error"),
        Err(e) => e.0,
    }
}

#[test]
fn color_names_and_hex() {
    assert_eq!(parse_color("red").ok().unwrap(), Some("FF0000".to_string()));
    assert_eq!(parse_color(" Blue ").ok().unwrap(), Some("0070C0".to_string()));
    assert_eq!(parse_color("grey").ok().unwrap(), Some("808080".to_string()));
    assert_eq!(parse_color("#ff00aa").ok().unwrap(), Some("FF00AA".to_string()));
    assert_eq!(parse_color("##1a2B3c").ok().unwrap(), Some("1A2B3C".to_string()));
    assert_eq!(parse_color("AUTO").ok().unwrap(), None);
    assert_eq!(parse_color("none").ok().unwrap(), None);
}

#[test]
fn color_rejects_bad_values() {
    assert_eq!(parse_color("zzz").err().unwrap().0, "Invalid color: zzz");
    assert_eq!(parse_color("#12345").err().unwrap().0, "Invalid color: #12345");
    assert_eq!(parse_color("#12345g").err().unwrap().0, "Invalid color: #12345g");
}

#[test]
fn toggle_bold_on_empty_paragraph_adds_bold_run() {
    let mut p = para(vec![]);
    apply_style_attr(&mut p, "togglebold", "", None).ok().unwrap();
    assert_eq!(p.runs.len(), 1);
    assert!(p.runs[0].style.bold);
    assert_eq!(p.runs[0].text, "");
}

#[test]
fn toggle_bold_mixed_then_all() {
    let mut p = para(vec![run("a", true), run("b", false)]);
    apply_style_attr(&mut p, "togglebold", "", None).ok().unwrap();
    assert!(p.runs.iter().all(|r| r.style.bold));
    apply_style_attr(&mut p, "togglebold", "", None).ok().unwrap();
    assert!(p.runs.iter().all(|r| !r.style.bold));
}

#[test]
fn toggle_bold_twice_restores_uniform_paragraph() {
    let mut p = para(vec![run("a", true), run("b", true)]);
    apply_style_attr(&mut p, "togglebold", "", None).ok().unwrap();
    apply_style_attr(&mut p, "togglebold", "", None).ok().unwrap();
    assert!(p.runs.iter().all(|r| r.style.bold));
    assert_eq!(p.runs[0].text, "a");
    assert_eq!(p.runs[1].text, "b");
}

#[test]
fn toggle_italic() {
    let mut p = para(vec![run("a", false)]);
    apply_style_attr(&mut p, "toggleitalic", "", None).ok().unwrap();
    assert!(p.runs[0].style.italic);
}

#[test]
fn size_sets_every_run_or_fails() {
    let mut p = para(vec![run("a", false), run("b", false)]);
    apply_style_attr(&mut p, "size", "11", Some(22)).ok().unwrap();
    assert!(p.runs.iter().all(|r| r.style.size_half_pt == Some(22)));
    let mut q = para(vec![]);
    assert_eq!(err_of(apply_style_attr(&mut q, "size", "big", None)), "Invalid size: big");
    assert!(q.runs.is_empty());
}

#[test]
fn color_on_empty_paragraph_only_when_set() {
    let mut p = para(vec![]);
    apply_style_attr(&mut p, "color", "none", None).ok().unwrap();
    assert!(p.runs.is_empty());
    apply_style_attr(&mut p, "color", "#00ff00", None).ok().unwrap();
    assert_eq!(p.runs[0].style.color_hex, Some("00FF00".to_string()));
}

#[test]
fn highlight_and_font() {
    let mut p = para(vec![run("a", false)]);
    apply_style_attr(&mut p, "highlight", " yellow ", None).ok().unwrap();
    assert_eq!(p.runs[0].style.highlight, Some("yellow".to_string()));
    apply_style_attr(&mut p, "highlight", "NONE", None).ok().unwrap();
    assert_eq!(p.runs[0].style.highlight, None);
    apply_style_attr(&mut p, "font", " Times New Roman ", None).ok().unwrap();
    assert_eq!(p.runs[0].style.font_name, Some("Times New Roman".to_string()));
    apply_style_attr(&mut p, "font", "NoNe", None).ok().unwrap();
    assert_eq!(p.runs[0].style.font_name, None);
}

#[test]
fn indent_levels() {
    let mut p = para(vec![]);
    apply_style_attr(&mut p, "indent", "+1", None).ok().unwrap();
    assert_eq!(p.indent_twips, Some(720));
    apply_style_attr(&mut p, "indent", "2", None).ok().unwrap();
    assert_eq!(p.indent_twips, Some(1440));
    apply_style_attr(&mut p, "indent", "-1", None).ok().unwrap();
    assert_eq!(p.indent_twips, Some(720));
    apply_style_attr(&mut p, "indent", "-5", None).ok().unwrap();
    assert_eq!(p.indent_twips, None);
    assert_eq!(err_of(apply_style_attr(&mut p, "indent", "x", None)), "Invalid indent: x");
}

#[test]
fn alignment_values() {
    let mut p = para(vec![]);
    apply_style_attr(&mut p, "align", "Centre", None).ok().unwrap();
    assert_eq!(p.alignment, Some("center".to_string()));
    apply_style_attr(&mut p, "align", "justify", None).ok().unwrap();
    assert_eq!(p.alignment, Some("both".to_string()));
    apply_style_attr(&mut p, "align", "none", None).ok().unwrap();
    assert_eq!(p.alignment, None);
    assert_eq!(err_of(apply_style_attr(&mut p, "align", "middle", None)), "Invalid align: middle");
}

#[test]
fn list_level_changes() {
    let mut p = para(vec![]);
    assert_eq!(
        err_of(apply_style_attr(&mut p, "ilvl", "+1", None)),
        "Paragraph is not a list item \u{2014} use :DocxIndent instead"
    );
    p.num_id = Some(3);
    apply_style_attr(&mut p, "ilvl", "+1", None).ok().unwrap();
    assert_eq!(p.num_ilvl, Some(1));
    apply_style_attr(&mut p, "ilvl", "+20", None).ok().unwrap();
    assert_eq!(p.num_ilvl, Some(8));
    apply_style_attr(&mut p, "ilvl", "-30", None).ok().unwrap();
    assert_eq!(p.num_ilvl, Some(0));
    let mut q = para(vec![]);
    q.para_style = Some("ListBullet".to_string());
    apply_style_attr(&mut q, "ilvl", "2", None).ok().unwrap();
    assert_eq!(q.num_ilvl, Some(2));
    assert_eq!(err_of(apply_style_attr(&mut q, "ilvl", "", None)), "Invalid ilvl: ");
}

#[test]
fn unknown_attribute() {
    let mut p = para(vec![]);
    assert_eq!(err_of(apply_style_attr(&mut p, "blink", "1", None)), "Unknown style attr: blink");
}

const DOC: &str = "<w:document xmlns:w=\"http://schemas.openxmlformats.org/wordprocessingml/2006/main\"><w:body><w:p><w:r><w:t>One</w:t></w:r></w:p><w:p><w:r><w:t>Two</w:t></w:r></w:p></w:body></w:document>";

#[test]
fn set_style_on_listed_paragraphs_only() {
    let mut doc = parse_document(DOC.as_bytes()).ok().unwrap();
    set_style(&mut doc, " P1 , ", "togglebold", "", None).ok().unwrap();
    assert!(!doc.paragraphs[0].dirty);
    assert!(!doc.paragraphs[0].runs[0].style.bold);
    assert!(doc.paragraphs[1].dirty);
    assert!(doc.paragraphs[1].runs[0].style.bold);
    assert_eq!(doc.paragraphs[1].byte_range, parse_document(DOC.as_bytes()).ok().unwrap().paragraphs[1].byte_range);
}

#[test]
fn set_style_without_match_fails() {
    let mut doc = parse_document(DOC.as_bytes()).ok().unwrap();
    assert_eq!(err_of(set_style(&mut doc, "P9,P8", "togglebold", "", None)), "No paragraphs matched: P9,P8");
}

#[test]
fn levels_up_then_down_come_back() {
    let mut p = para(vec![run("x", false)]);
    p.indent_twips = Some(2160);
    apply_style_attr(&mut p, "indent", "+1", None).ok().unwrap();
    assert_eq!(p.indent_twips, Some(2880));
    apply_style_attr(&mut p, "indent", "-1", None).ok().unwrap();
    assert_eq!(p.indent_twips, Some(2160));
    // An indent between levels comes back as a whole level.
    p.indent_twips = Some(1000);
    apply_style_attr(&mut p, "indent", "+1", None).ok().unwrap();
    apply_style_attr(&mut p, "indent", "-1", None).ok().unwrap();
    assert_eq!(p.indent_twips, Some(720));

    let mut item = para(vec![run("y", false)]);
    item.num_id = Some(3);
    item.num_ilvl = Some(2);
    apply_style_attr(&mut item, "ilvl", "+1", None).ok().unwrap();
    assert_eq!(item.num_ilvl, Some(3));
    apply_style_attr(&mut item, "ilvl", "-1", None).ok().unwrap();
    assert_eq!(item.num_ilvl, Some(2));
    // At the deepest level a raise is lost.
    item.num_ilvl = Some(8);
    apply_style_attr(&mut item, "ilvl", "+1", None).ok().unwrap();
    apply_style_attr(&mut item, "ilvl", "-1", None).ok().unwrap();
    assert_eq!(item.num_ilvl, Some(7));
}

#[test]
fn italic_toggled_twice_comes_back() {
    let mut p = para(vec![run("a", false), run("b", false)]);
    apply_style_attr(&mut p, "toggleitalic", "", None).ok().unwrap();
    assert!(p.runs.iter().all(|r| r.style.italic));
    apply_style_attr(&mut p, "toggleitalic", "", None).ok().unwrap();
    assert!(p.runs.iter().all(|r| !r.style.italic));
    assert!(p.runs.iter().all(|r| !r.style.bold));
}

#[test]
fn setting_a_value_again_changes_nothing() {
    let fields = |p: &Paragraph| -> Vec<(bool, Option<String>, Option<String>)> {
        p.runs.iter().map(|r| (r.style.bold, r.style.color_hex.clone(), r.style.font_name.clone())).collect()
    };
    let mut p = para(vec![run("a", true), run("b", false)]);
    apply_style_attr(&mut p, "font", "Arial", None).ok().unwrap();
    apply_style_attr(&mut p, "color", "red", None).ok().unwrap();
    let once = fields(&p);
    apply_style_attr(&mut p, "color", "red", None).ok().unwrap();
    apply_style_attr(&mut p, "font", "Arial", None).ok().unwrap();
    assert_eq!(fields(&p), once);
    assert_eq!(
        once,
        vec![
            (true, Some("FF0000".to_string()), Some("Arial".to_string())),
            (false, Some("FF0000".to_string()), Some("Arial".to_string())),
        ]
    );
}

#[test]
fn hex_colours_come_back_upper_case() {
    assert_eq!(parse_color(" #ff00aa ").ok().unwrap(), Some("FF00AA".to_string()));
    let mut p = para(vec![run("a", false)]);
    apply_style_attr(&mut p, "color", "##a1b2c3", None).ok().unwrap();
    assert_eq!(p.runs[0].style.color_hex, Some("A1B2C3".to_string()));
}
