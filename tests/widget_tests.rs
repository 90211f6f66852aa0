use nb2nl::native::NativeError;
use nb2nl::number::parse_int;
use nb2nl::widget::{parse_interface, render_interface, Widget, WidgetKind};

const SWITCH_BLOCK: &str = "SWITCH\n10\n20\n110\n53\nshow-energy?\nshow-energy?\n1\n1\n-1000\n";
const OUTPUT_BLOCK: &str = "OUTPUT\n-5\n0\n200\n100\n12\n";

#[test]
fn interface_blocks_are_read_by_keyword() {
    let text = format!("\n{}\n{}\n", SWITCH_BLOCK, OUTPUT_BLOCK);
    let ws = parse_interface(&text).unwrap();
    assert_eq!(ws.len(), 2);
    assert_eq!(ws[0].kind, WidgetKind::Switch);
    assert_eq!((ws[0].left, ws[0].top, ws[0].right, ws[0].bottom), (10, 20, 110, 53));
    assert_eq!(ws[0].fields, vec!["show-energy?", "show-energy?", "1", "1", "-1000"]);
    assert_eq!(ws[1].kind, WidgetKind::Output);
    assert_eq!(ws[1].left, -5);
    assert_eq!(ws[1].fields, vec!["12"]);
}

#[test]
fn empty_interface_has_no_widgets() {
    assert!(parse_interface("").unwrap().is_empty());
    assert!(parse_interface("\n\n\r\n").unwrap().is_empty());
}

#[test]
fn unknown_keyword_is_reported() {
    let r = parse_interface("\nGADGET\n1\n2\n3\n4\n");
    assert_eq!(r, Err(NativeError::UnknownWidgetKind("GADGET".to_string(), 2)));
}

#[test]
fn short_switch_block_is_truncated() {
    let r = parse_interface("SWITCH\n10\n20\n110\n");
    assert_eq!(r, Err(NativeError::TruncatedWidget("SWITCH".to_string(), 1)));
    let r = parse_interface("SWITCH\n10\n20\n110\n53\nx\nx\n1\n\n1\n-1000\n");
    assert_eq!(r, Err(NativeError::TruncatedWidget("SWITCH".to_string(), 1)));
}

#[test]
fn bad_coordinate_is_an_invalid_field() {
    let r = parse_interface("OUTPUT\n1\nx\n3\n4\n12\n");
    assert_eq!(
        r,
        Err(NativeError::InvalidField("OUTPUT".to_string(), "top".to_string(), 3, "x".to_string()))
    );
    let r = parse_interface("OUTPUT\n100\n0\n3\n4\n12\n");
    assert_eq!(
        r,
        Err(NativeError::InvalidField("OUTPUT".to_string(), "right".to_string(), 4, "3".to_string()))
    );
    let r = parse_interface("OUTPUT\n0\n50\n3\n4\n12\n");
    assert_eq!(
        r,
        Err(NativeError::InvalidField("OUTPUT".to_string(), "bottom".to_string(), 5, "4".to_string()))
    );
}

#[test]
fn interface_round_trip() {
    let w = Widget {
        kind: WidgetKind::Output,
        left: -7,
        top: 0,
        right: 1234567,
        bottom: 9,
        fields: vec!["12".to_string()],
    };
    let text = render_interface(&vec![w]);
    assert_eq!(text, "OUTPUT\n-7\n0\n1234567\n9\n12\n\n");
    let back = parse_interface(&text).unwrap();
    assert_eq!(render_interface(&back), text);
    assert_eq!(back[0].right, 1234567);
}

#[test]
fn integers_parse_with_sign() {
    assert_eq!(parse_int("0"), Some(0));
    assert_eq!(parse_int("-42"), Some(-42));
    assert_eq!(parse_int("9223372036854775807"), Some(i64::MAX));
    assert_eq!(parse_int("9223372036854775808"), None);
    assert_eq!(parse_int("-"), None);
    assert_eq!(parse_int(""), None);
    assert_eq!(parse_int("1.5"), None);
    assert_eq!(parse_int("+3"), None);
}
