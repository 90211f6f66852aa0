use nb2nl::native::parse_native;
use nb2nl::xml::{push_escaped, render_xml};

#[test]
fn escaping_replaces_markup_characters() {
    let mut out = String::from(">");
    push_escaped(&mut out, "a<b & \"c\">d");
    assert_eq!(out, ">a&lt;b &amp; &quot;c&quot;&gt;d");
}

#[test]
fn document_renders_as_model_element() {
    let t = ["to go end", "\nOUTPUT\n5\n6\n70\n80\n12 & up\n\n", "i<", "", "6.2"].join("@#$#@#$#@");
    let doc = parse_native(&t).unwrap();
    let x = render_xml("wolf \"sheep\"", &doc);
    assert_eq!(
        x,
        "<model name=\"wolf &quot;sheep&quot;\">\n\
         <procedures>to go end</procedures>\n\
         <interface>\n\
         <widget kind=\"OUTPUT\" left=\"5\" top=\"6\" right=\"70\" bottom=\"80\">\n\
         <field>12 &amp; up</field>\n\
         </widget>\n\
         </interface>\n\
         <info>i&lt;</info>\n\
         <turtleShapes></turtleShapes>\n\
         <version>6.2</version>\n\
         </model>\n"
    );
}

#[test]
fn optional_sections_render_only_when_present() {
    let t = ["p", "", "n", "s", "v", "pc", "ls"].join("@#$#@#$#@");
    let doc = parse_native(&t).unwrap();
    let x = render_xml("m", &doc);
    assert!(x.contains("<previewCommands>pc</previewCommands>\n<linkShapes>ls</linkShapes>\n</model>\n"));
    assert!(!x.contains("modelSettings"));
    assert!(x.contains("<interface>\n</interface>\n"));
}
