use nb2nl::native::{parse_native, render_native, Document, NativeError, Section};
use nb2nl::widget::WidgetKind;

const D: &str = "@#$#@#$#@";

fn text_of(parts: &[&str]) -> String {
    parts.join(D)
}

#[test]
fn native_sections_are_read_in_order() {
    let t = text_of(&["to go end\n", "\nOUTPUT\n5\n6\n70\n80\n12\n\n", "\ninfo\n", "\nshapes\n", "\nNetLogo 6.2.0\n"]);
    let doc = parse_native(&t).unwrap();
    assert_eq!(doc.sections().len(), 5);
    assert_eq!(doc.sections()[0], "to go end\n");
    assert_eq!(doc.sections()[4], "\nNetLogo 6.2.0\n");
    assert_eq!(doc.section(Section::Version).unwrap(), "\nNetLogo 6.2.0\n");
    assert!(doc.section(Section::PreviewCommands).is_none());
    assert_eq!(Section::Version.index(), 4);
    assert_eq!(Section::at(4), Section::Version);
}

#[test]
fn native_round_trip_keeps_text() {
    let t = text_of(&["p", "", "n", "s", "v", "", "l", "m", "h"]);
    let doc = parse_native(&t).unwrap();
    assert_eq!(doc.sections().len(), 9);
    assert_eq!(render_native(&doc), t);
    let again = parse_native(&render_native(&doc)).unwrap();
    assert_eq!(render_native(&again), render_native(&doc));
}

#[test]
fn optional_sections_absence_is_kept() {
    let t = text_of(&["p", "", "n", "s", "v", "pc"]);
    let doc = parse_native(&t).unwrap();
    assert_eq!(doc.sections().len(), 6);
    assert_eq!(render_native(&doc), t);
}

#[test]
fn delimiters_after_the_last_section_stay_in_it() {
    let t = text_of(&["p", "", "n", "s", "v", "a", "b", "c", "d", "e"]);
    let doc = parse_native(&t).unwrap();
    assert_eq!(doc.sections().len(), 9);
    assert_eq!(doc.sections()[8], format!("d{}e", D));
    assert_eq!(render_native(&doc), t);
}

#[test]
fn missing_version_section_is_reported() {
    let t = text_of(&["p", "", "n", "s"]);
    assert_eq!(parse_native(&t).err(), Some(NativeError::MissingSection(Section::Version)));
    assert_eq!(parse_native("").err(), Some(NativeError::MissingSection(Section::Interface)));
}

#[test]
fn document_needs_mandatory_sections() {
    let five: Vec<String> = vec!["a", "", "c", "d", "e"].into_iter().map(String::from).collect();
    let doc = Document::from_sections(five).unwrap();
    assert_eq!(render_native(&doc), text_of(&["a", "", "c", "d", "e"]));
    assert!(Document::from_sections(vec![String::new(); 4]).is_none());
    assert!(Document::from_sections(vec![String::new(); 10]).is_none());
}

#[test]
fn native_interface_widgets_are_read() {
    let t = text_of(&["to go end\n", "\nOUTPUT\n5\n6\n70\n80\n12\n\n", "\n", "\n", "\n6.2\n"]);
    let doc = parse_native(&t).unwrap();
    assert_eq!(doc.widgets().len(), 1);
    assert_eq!(doc.widgets()[0].kind, WidgetKind::Output);
    assert_eq!(doc.widgets()[0].bottom, 80);
    assert_eq!(render_native(&doc), t);
}

#[test]
fn native_interface_errors_abort_the_parse() {
    let t = text_of(&["p", "\nDIAL\n1\n2\n3\n4\n", "n", "s", "v"]);
    assert_eq!(parse_native(&t).err(), Some(NativeError::UnknownWidgetKind("DIAL".to_string(), 2)));
    let t = text_of(&["p", "\nSWITCH\n1\n2\n3\n", "n", "s", "v"]);
    assert_eq!(parse_native(&t).err(), Some(NativeError::TruncatedWidget("SWITCH".to_string(), 2)));
    assert!(Document::from_sections(vec!["a".to_string(), "SWITCH".to_string(), String::new(), String::new(), String::new()]).is_none());
}
