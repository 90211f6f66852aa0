use vstd::prelude::*;
use crate::native::{section_at, Document, Section};
use crate::number::{int_text, push_int};
use crate::util::{push_char, push_text, texts};
use crate::widget::{keyword, widget_view, widget_views, Widget, WidgetView};

verus! {

/// A character as it stands in XML text or an attribute value.
pub open spec fn escape_char(c: char) -> Seq<char> {
    if c == '&' {
        "&amp;"@
    } else if c == '<' {
        "&lt;"@
    } else if c == '>' {
        "&gt;"@
    } else if c == '"' {
        "&quot;"@
    } else {
        seq![c]
    }
}

/// A text as it stands in XML text or an attribute value.
pub open spec fn escape(s: Seq<char>) -> Seq<char>
    decreases s.len(),
{
    if s.len() == 0 {
        Seq::empty()
    } else {
        escape(s.drop_last()) + escape_char(s.last())
    }
}

/// Appends `t` escaped for XML.
pub fn push_escaped(out: &mut String, t: &str)
    ensures
        final(out)@ == old(out)@ + escape(t@),
{
    let ghost start = out@;
    for c in it: t.chars()
        invariant
            it.seq() == t@,
            out@ == start + escape(t@.take(it.index())),
    {
        assert(t@.take(it.index() + 1).drop_last() =~= t@.take(it.index()));
        if c == '&' {
            push_text(out, "&amp;");
        } else if c == '<' {
            push_text(out, "&lt;");
        } else if c == '>' {
            push_text(out, "&gt;");
        } else if c == '"' {
            push_text(out, "&quot;");
        } else {
            push_char(out, c);
        }
        assert(out@ =~= start + escape(t@.take(it.index() + 1)));
    }
    assert(t@.take(t@.len() as int) =~= t@);
}

/// The element names of the sections, in order.
pub open spec fn section_title(s: Section) -> Seq<char> {
    match s {
        Section::Procedures => "procedures"@,
        Section::Interface => "interface"@,
        Section::Info => "info"@,
        Section::TurtleShapes => "turtleShapes"@,
        Section::Version => "version"@,
        Section::PreviewCommands => "previewCommands"@,
        Section::LinkShapes => "linkShapes"@,
        Section::ModelSettings => "modelSettings"@,
        Section::HubNetClientInfo => "hubNetClient"@,
    }
}

impl Section {
    /// The name of this section's element.
    pub fn title(self) -> (r: &'static str)
        ensures
            r@ == section_title(self),
    {
        match self {
            Section::Procedures => "procedures",
            Section::Interface => "interface",
            Section::Info => "info",
            Section::TurtleShapes => "turtleShapes",
            Section::Version => "version",
            Section::PreviewCommands => "previewCommands",
            Section::LinkShapes => "linkShapes",
            Section::ModelSettings => "modelSettings",
            Section::HubNetClientInfo => "hubNetClient",
        }
    }
}

/// Each field line as a `field` element.
pub open spec fn fields_xml(fs: Seq<Seq<char>>) -> Seq<char>
    decreases fs.len(),
{
    if fs.len() == 0 {
        Seq::empty()
    } else {
        fields_xml(fs.drop_last()) + "<field>"@ + escape(fs.last()) + "</field>\n"@
    }
}

/// A widget as an element: kind and rectangle as attributes, fields inside.
pub open spec fn widget_xml(w: WidgetView) -> Seq<char> {
    "<widget kind=\""@ + keyword(w.0) + "\" left=\""@ + int_text(w.1) + "\" top=\""@ + int_text(w.2)
        + "\" right=\""@ + int_text(w.3) + "\" bottom=\""@ + int_text(w.4) + "\">\n"@ + fields_xml(w.5)
        + "</widget>\n"@
}

/// The widget elements, in order.
pub open spec fn widgets_xml(ws: Seq<WidgetView>) -> Seq<char>
    decreases ws.len(),
{
    if ws.len() == 0 {
        Seq::empty()
    } else {
        widgets_xml(ws.drop_last()) + widget_xml(ws.last())
    }
}

/// Section `i` as an element: the interface holds widget elements, any
/// other section its text.
pub open spec fn section_xml(i: int, text: Seq<char>, ws: Seq<WidgetView>) -> Seq<char> {
    let t = section_title(section_at(i));
    if i == 1 {
        "<"@ + t + ">\n"@ + widgets_xml(ws) + "</"@ + t + ">\n"@
    } else {
        "<"@ + t + ">"@ + escape(text) + "</"@ + t + ">\n"@
    }
}

/// The section elements of the first `n` sections.
pub open spec fn sections_xml(d: Seq<Seq<char>>, ws: Seq<WidgetView>, n: int) -> Seq<char>
    decreases n,
{
    if n <= 0 {
        Seq::empty()
    } else {
        sections_xml(d, ws, n - 1) + section_xml(n - 1, d[n - 1], ws)
    }
}

/// A document as a `model` element named `name`, one child per section.
pub open spec fn model_xml(name: Seq<char>, d: Seq<Seq<char>>, ws: Seq<WidgetView>) -> Seq<char> {
    "<model name=\""@ + escape(name) + "\">\n"@ + sections_xml(d, ws, d.len() as int) + "</model>\n"@
}


/// Appends one widget element.
#[verifier::rlimit(40)]
fn push_widget_xml(out: &mut String, w: &Widget)
    ensures
        final(out)@ == old(out)@ + widget_xml(widget_view(*w)),
{
    let ghost start = out@;
    push_text(out, "<widget kind=\"");
    push_text(out, w.kind.keyword_text());
    push_text(out, "\" left=\"");
    push_int(out, w.left);
    push_text(out, "\" top=\"");
    push_int(out, w.top);
    push_text(out, "\" right=\"");
    push_int(out, w.right);
    push_text(out, "\" bottom=\"");
    push_int(out, w.bottom);
    push_text(out, "\">\n");
    let ghost head = out@;
    let ghost fs = texts(w.fields@);
    let n = w.fields.len();
    for k in 0..n
        invariant
            n == w.fields@.len(),
            fs == texts(w.fields@),
            out@ == head + fields_xml(fs.take(k as int)),
    {
        assert(fs.take(k + 1).drop_last() =~= fs.take(k as int));
        push_text(out, "<field>");
        push_escaped(out, w.fields[k].as_str());
        push_text(out, "</field>\n");
        assert(out@ =~= head + fields_xml(fs.take(k + 1)));
    }
    assert(fs.take(n as int) =~= fs);
    push_text(out, "</widget>\n");
    assert(out@ =~= start + widget_xml(widget_view(*w)));
}

/// Appends the elements of the widgets.
fn push_widgets_xml(out: &mut String, ws: &Vec<Widget>)
    ensures
        final(out)@ == old(out)@ + widgets_xml(widget_views(ws@)),
{
    let ghost start = out@;
    let ghost vs = widget_views(ws@);
    let n = ws.len();
    for k in 0..n
        invariant
            n == ws@.len(),
            vs == widget_views(ws@),
            out@ == start + widgets_xml(vs.take(k as int)),
    {
        assert(vs.take(k + 1).drop_last() =~= vs.take(k as int));
        push_widget_xml(out, &ws[k]);
        assert(out@ =~= start + widgets_xml(vs.take(k + 1)));
    }
    assert(vs.take(n as int) =~= vs);
}

/// Writes a document as XML: a `model` element named `name` with one child
/// element per section present, in order; the interface element holds one
/// `widget` element per widget, the others their section's text.
pub fn render_xml(name: &str, doc: &Document) -> (r: String)
    requires
        doc.wf(),
    ensures
        r@ == model_xml(name@, doc@, doc.widget_list()),
{
    let mut out = String::new();
    push_text(&mut out, "<model name=\"");
    push_escaped(&mut out, name);
    push_text(&mut out, "\">\n");
    let ghost head = out@;
    let secs = doc.sections();
    let ws = doc.widgets();
    let ghost d = doc@;
    let ghost wl = doc.widget_list();
    let n = secs.len();
    for i in 0..n
        invariant
            n == d.len(),
            d == texts(secs@),
            wl == widget_views(ws@),
            n <= 9,
            out@ == head + sections_xml(d, wl, i as int),
    {
        let ghost before = out@;
        let title = Section::at(i).title();
        let ghost t = section_title(section_at(i as int));
        assert(title@ == t);
        push_text(&mut out, "<");
        push_text(&mut out, title);
        if i == 1 {
            push_text(&mut out, ">\n");
            push_widgets_xml(&mut out, ws);
            push_text(&mut out, "</");
            push_text(&mut out, title);
            push_text(&mut out, ">\n");
            assert(out@ =~= before + ("<"@ + t + ">\n"@ + widgets_xml(wl) + "</"@ + t + ">\n"@));
        } else {
            push_text(&mut out, ">");
            push_escaped(&mut out, secs[i].as_str());
            push_text(&mut out, "</");
            push_text(&mut out, title);
            push_text(&mut out, ">\n");
            assert(secs@[i as int]@ == d[i as int]);
            assert(out@ =~= before + ("<"@ + t + ">"@ + escape(d[i as int]) + "</"@ + t + ">\n"@));
        }
        assert(out@ == before + section_xml(i as int, d[i as int], wl));
        assert(sections_xml(d, wl, i + 1) == sections_xml(d, wl, i as int) + section_xml(i as int, d[i as int], wl));
        assert(out@ =~= head + sections_xml(d, wl, i + 1));
    }
    push_text(&mut out, "</model>\n");
    out
}

} // verus!
