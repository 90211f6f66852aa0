use vstd::prelude::*;
use crate::util::{join, texts, chars_of, string_between};
use crate::widget::{error_outcome, interface_of, parse_interface, widget_views, Outcome, Widget, WidgetView};

verus! {

/// The token that separates the sections of a native document.
pub open spec fn delim() -> Seq<char> {
    seq!['@', '#', '$', '#', '@', '#', '$', '#', '@']
}

/// The most sections a native document has.
pub const MAX_SECTIONS: usize = 9;

/// The sections that every native document has.
pub const MANDATORY_SECTIONS: usize = 5;

/// Whether the delimiter occurs in `s` starting at position `i`.
pub open spec fn delim_at(s: Seq<char>, i: int) -> bool {
    0 <= i && i + delim().len() <= s.len() && s.subrange(i, i + delim().len()) == delim()
}

/// The first position at or after `i` where the delimiter starts, or -1.
pub open spec fn find_from(s: Seq<char>, i: int) -> int
    decreases s.len() - i,
{
    if i < 0 || i + delim().len() > s.len() {
        -1
    } else if delim_at(s, i) {
        i
    } else {
        find_from(s, i + 1)
    }
}

/// The text from `start` cut at the first `max` delimiters that follow, the
/// delimiters themselves left out; after the last cut the rest stays whole.
pub open spec fn split_from(s: Seq<char>, start: int, max: nat) -> Seq<Seq<char>>
    decreases max,
{
    let p = find_from(s, start);
    if max == 0 || p < 0 {
        seq![s.subrange(start, s.len() as int)]
    } else {
        seq![s.subrange(start, p)] + split_from(s, p + delim().len(), (max - 1) as nat)
    }
}

/// The sections of a native text, in order.
pub open spec fn sections_of(s: Seq<char>) -> Seq<Seq<char>> {
    split_from(s, 0, (MAX_SECTIONS - 1) as nat)
}

/// A found delimiter starts at or after the position searched from, and none
/// starts in between.
pub proof fn lemma_find_from(s: Seq<char>, i: int)
    requires
        0 <= i,
    ensures
        find_from(s, i) == -1 || (i <= find_from(s, i) && delim_at(s, find_from(s, i))),
        forall|j: int| i <= j && (find_from(s, i) == -1 || j < find_from(s, i)) ==> !delim_at(s, j),
    decreases s.len() - i,
{
    if i + delim().len() > s.len() {
    } else if delim_at(s, i) {
    } else {
        lemma_find_from(s, i + 1);
    }
}


/// The named sections of a native document, in their fixed order.
#[derive(Clone, Copy, Debug, PartialEq, Eq, Structural)]
pub enum Section {
    Procedures,
    Interface,
    Info,
    TurtleShapes,
    Version,
    PreviewCommands,
    LinkShapes,
    ModelSettings,
    HubNetClientInfo,
}

/// The section at position `i` of the fixed order.
pub open spec fn section_at(i: int) -> Section {
    if i == 0 {
        Section::Procedures
    } else if i == 1 {
        Section::Interface
    } else if i == 2 {
        Section::Info
    } else if i == 3 {
        Section::TurtleShapes
    } else if i == 4 {
        Section::Version
    } else if i == 5 {
        Section::PreviewCommands
    } else if i == 6 {
        Section::LinkShapes
    } else if i == 7 {
        Section::ModelSettings
    } else {
        Section::HubNetClientInfo
    }
}

impl Section {
    /// The position of this section in the fixed order.
    pub open spec fn position(self) -> nat {
        match self {
            Section::Procedures => 0,
            Section::Interface => 1,
            Section::Info => 2,
            Section::TurtleShapes => 3,
            Section::Version => 4,
            Section::PreviewCommands => 5,
            Section::LinkShapes => 6,
            Section::ModelSettings => 7,
            Section::HubNetClientInfo => 8,
        }
    }

    /// The position of this section in the fixed order.
    pub fn index(self) -> (i: usize)
        ensures
            i == self.position(),
            section_at(i as int) == self,
    {
        match self {
            Section::Procedures => 0,
            Section::Interface => 1,
            Section::Info => 2,
            Section::TurtleShapes => 3,
            Section::Version => 4,
            Section::PreviewCommands => 5,
            Section::LinkShapes => 6,
            Section::ModelSettings => 7,
            Section::HubNetClientInfo => 8,
        }
    }

    /// The section at position `i` of the fixed order.
    pub fn at(i: usize) -> (s: Section)
        requires
            i < MAX_SECTIONS,
        ensures
            s == section_at(i as int),
    {
        if i == 0 {
            Section::Procedures
        } else if i == 1 {
            Section::Interface
        } else if i == 2 {
            Section::Info
        } else if i == 3 {
            Section::TurtleShapes
        } else if i == 4 {
            Section::Version
        } else if i == 5 {
            Section::PreviewCommands
        } else if i == 6 {
            Section::LinkShapes
        } else if i == 7 {
            Section::ModelSettings
        } else {
            Section::HubNetClientInfo
        }
    }
}

/// Why a native text could not be read.
#[derive(Debug, PartialEq, Eq)]
pub enum NativeError {
    /// A mandatory section is absent: the first one missing.
    MissingSection(Section),
    /// An interface block starts with a keyword that names no widget kind:
    /// the keyword and the block's line number (from 1).
    UnknownWidgetKind(String, usize),
    /// A widget block has fewer lines than its kind needs: the keyword and
    /// the block's line number (from 1).
    TruncatedWidget(String, usize),
    /// A field's text does not read as its type: the keyword, the field's
    /// name, its line number (from 1) and its text.
    InvalidField(String, String, usize, String),
}

/// Whether the delimiter starts at position `i` of `cs`.
fn delim_at_exec(cs: &Vec<char>, i: usize) -> (r: bool)
    ensures
        r == delim_at(cs@, i as int),
{
    let d: Vec<char> = vec!['@', '#', '$', '#', '@', '#', '$', '#', '@'];
    assert(d@ =~= delim());
    if i > cs.len() || cs.len() - i < 9 {
        return false;
    }
    let mut j: usize = 0;
    while j < 9
        invariant
            d@ == delim(),
            i + 9 <= cs@.len(),
            cs@.len() <= usize::MAX,
            j <= 9,
            forall|k: int| 0 <= k < j ==> cs@[i + k] == d@[k],
        decreases 9 - j,
    {
        if cs[i + j] != d[j] {
            assert(cs@.subrange(i as int, i + 9)[j as int] != delim()[j as int]);
            return false;
        }
        j = j + 1;
    }
    assert(cs@.subrange(i as int, i + 9) =~= delim());
    true
}

/// The first position at or after `from` where the delimiter starts.
fn find_delim(cs: &Vec<char>, from: usize) -> (r: Option<usize>)
    ensures
        r is None <==> find_from(cs@, from as int) < 0,
        r is Some ==> r->0 == find_from(cs@, from as int),
{
    let mut i = from;
    while i < cs.len() && cs.len() - i >= 9
        invariant
            from <= i,
            find_from(cs@, from as int) == find_from(cs@, i as int),
        decreases cs@.len() - i,
    {
        if delim_at_exec(cs, i) {
            return Some(i);
        }
        i = i + 1;
    }
    None
}


/// A split has at least one part and at most one more than the cuts allowed.
pub proof fn lemma_split_len(s: Seq<char>, start: int, max: nat)
    ensures
        1 <= split_from(s, start, max).len() <= max + 1,
    decreases max,
{
    let p = find_from(s, start);
    if max == 0 || p < 0 {
    } else {
        lemma_split_len(s, p + delim().len(), (max - 1) as nat);
    }
}

/// Joining a first part onto a nonempty rest puts the separator between.
pub proof fn lemma_join_prepend(a: Seq<char>, rest: Seq<Seq<char>>, sep: Seq<char>)
    requires
        rest.len() >= 1,
    ensures
        join(seq![a] + rest, sep) == a + sep + join(rest, sep),
    decreases rest.len(),
{
    let all = seq![a] + rest;
    if rest.len() == 1 {
        assert(all.drop_last() =~= seq![a]);
        assert(seq![a].len() == 1 && seq![a][0] == a);
        assert(join(seq![a], sep) == a);
        assert(join(rest, sep) == rest[0]);
        assert(all.last() == rest[0]);
    } else {
        assert(all.drop_last() =~= seq![a] + rest.drop_last());
        lemma_join_prepend(a, rest.drop_last(), sep);
        assert(all.last() == rest.last());
        assert(join(rest, sep) == join(rest.drop_last(), sep) + sep + rest.last());
        assert(join(all, sep) == join(all.drop_last(), sep) + sep + all.last());
        assert(join(all, sep) =~= a + sep + join(rest, sep));
    }
}

/// Joining the parts of a split with the delimiter gives back the text it
/// was cut from.
pub proof fn lemma_join_split(s: Seq<char>, start: int, max: nat)
    requires
        0 <= start <= s.len(),
    ensures
        join(split_from(s, start, max), delim()) == s.subrange(start, s.len() as int),
    decreases max,
{
    let p = find_from(s, start);
    lemma_find_from(s, start);
    if max == 0 || p < 0 {
    } else {
        let next = p + delim().len();
        lemma_join_split(s, next, (max - 1) as nat);
        lemma_split_len(s, next, (max - 1) as nat);
        let rest = split_from(s, next, (max - 1) as nat);
        lemma_join_prepend(s.subrange(start, p), rest, delim());
        assert(s.subrange(p, next) == delim());
        assert(s.subrange(start, s.len() as int) =~= s.subrange(start, p) + delim()
            + s.subrange(next, s.len() as int));
    }
}

/// Rendering the sections that reading a text yields gives back that text,
/// for every text that reads as a native document.
pub proof fn lemma_native_round_trip(s: Seq<char>)
    requires
        sections_of(s).len() >= MANDATORY_SECTIONS,
    ensures
        join(sections_of(s), delim()) == s,
{
    lemma_join_split(s, 0, (MAX_SECTIONS - 1) as nat);
    assert(s.subrange(0, s.len() as int) =~= s);
}

/// The texts of a document's sections, in order.
pub type SectionTexts = Seq<Seq<char>>;

/// Whether `s` holds no `@`, the delimiter's first character.
pub open spec fn free_of_delim(s: Seq<char>) -> bool {
    forall|i: int| 0 <= i < s.len() ==> s[i] != '@'
}

/// The delimiter search gives the first position at or after `i` where the
/// delimiter starts, when there is one.
proof fn lemma_find_first(s: Seq<char>, i: int, q: int)
    requires
        0 <= i <= q,
        delim_at(s, q),
        forall|p: int| i <= p < q ==> !delim_at(s, p),
    ensures
        find_from(s, i) == q,
    decreases q - i,
{
    if i < q {
        lemma_find_first(s, i + 1, q);
    }
}

/// A text without `@` holds no delimiter.
proof fn lemma_find_none(s: Seq<char>, i: int)
    requires
        0 <= i,
        free_of_delim(s),
    ensures
        find_from(s, i) == -1,
    decreases s.len() - i,
{
    if i + delim().len() <= s.len() {
        assert(s.subrange(i, i + 9)[0] != delim()[0]);
        lemma_find_none(s, i + 1);
    }
}

/// Searching after a prefix is searching the rest, shifted by its length.
proof fn lemma_find_shift(a: Seq<char>, b: Seq<char>, i: int)
    requires
        0 <= i,
    ensures
        find_from(a + b, a.len() + i) == if find_from(b, i) < 0 {
            -1
        } else {
            a.len() + find_from(b, i)
        },
    decreases b.len() - i,
{
    let s = a + b;
    if i + delim().len() <= b.len() {
        assert(s.subrange(a.len() + i, a.len() + i + 9) =~= b.subrange(i, i + 9));
        lemma_find_shift(a, b, i + 1);
    }
}

/// Splitting after a prefix is splitting the rest.
proof fn lemma_split_shift(a: Seq<char>, b: Seq<char>, i: int, m: nat)
    requires
        0 <= i <= b.len(),
    ensures
        split_from(a + b, a.len() + i, m) == split_from(b, i, m),
    decreases m,
{
    let s = a + b;
    lemma_find_shift(a, b, i);
    lemma_find_from(b, i);
    let p = find_from(b, i);
    if m == 0 || p < 0 {
        assert(s.subrange(a.len() + i, s.len() as int) =~= b.subrange(i, b.len() as int));
    } else {
        assert(s.subrange(a.len() + i, a.len() + p) =~= b.subrange(i, p));
        lemma_split_shift(a, b, p + 9, (m - 1) as nat);
    }
}

/// Sections free of `@` come back whole when their joined text is split.
proof fn lemma_split_join(d: Seq<Seq<char>>, m: nat)
    requires
        1 <= d.len() <= m + 1,
        forall|i: int| 0 <= i < d.len() - 1 ==> free_of_delim(#[trigger] d[i]),
        (d.len() < m + 1) ==> free_of_delim(d.last()),
    ensures
        split_from(join(d, delim()), 0, m) == d,
    decreases d.len(),
{
    let s = join(d, delim());
    if d.len() == 1 {
        assert(s == d[0]);
        if m > 0 {
            lemma_find_none(s, 0);
        }
        assert(s.subrange(0, s.len() as int) =~= s);
        assert(seq![s] =~= d);
    } else {
        let a = d[0];
        let rest = d.drop_first();
        assert(d =~= seq![a] + rest);
        lemma_join_prepend(a, rest, delim());
        let t = join(rest, delim());
        assert(s == a + delim() + t);
        assert(s.subrange(a.len() as int, a.len() + 9int) =~= delim());
        assert forall|p: int| 0 <= p < a.len() implies !delim_at(s, p) by {
            assert(free_of_delim(d[0]));
            if delim_at(s, p) {
                assert(s.subrange(p, p + 9)[0] == s[p]);
            }
        }
        lemma_find_first(s, 0, a.len() as int);
        assert(s.subrange(0, a.len() as int) =~= a);
        assert forall|i: int| 0 <= i < rest.len() - 1 implies free_of_delim(#[trigger] rest[i]) by {
            assert(rest[i] == d[i + 1]);
        }
        lemma_split_join(rest, (m - 1) as nat);
        assert(s =~= (a + delim()) + t);
        lemma_split_shift(a + delim(), t, 0, (m - 1) as nat);
        assert(split_from(s, 0, m) =~= seq![a] + rest);
    }
}

/// The sections written in order with the delimiter between them.
pub open spec fn native_text(d: SectionTexts) -> Seq<char> {
    join(d, delim())
}

/// Between five and nine sections, none holding `@` but the last of nine.
pub open spec fn plain_sections(d: SectionTexts) -> bool {
    &&& MANDATORY_SECTIONS <= d.len() <= MAX_SECTIONS
    &&& forall|i: int| 0 <= i < d.len() - 1 ==> free_of_delim(#[trigger] d[i])
    &&& (d.len() == MAX_SECTIONS || free_of_delim(d.last()))
}

/// Reading back the rendered text of plain sections gives the same sections.
pub proof fn lemma_parse_rendered(parts: SectionTexts)
    requires
        plain_sections(parts),
    ensures
        parts == sections_of(native_text(parts)),
{
    lemma_split_join(parts, (MAX_SECTIONS - 1) as nat);
}

/// A native document: its sections as text, in the fixed order, the
/// mandatory ones always present, and the widgets its interface section holds.
pub struct Document {
    sections: Vec<String>,
    widgets: Vec<Widget>,
}

impl View for Document {
    type V = Seq<Seq<char>>;

    closed spec fn view(&self) -> Seq<Seq<char>> {
        texts(self.sections@)
    }
}

impl Document {
    /// The widgets of the interface section.
    pub closed spec fn widget_list(&self) -> Seq<WidgetView> {
        widget_views(self.widgets@)
    }

    pub open spec fn wf(&self) -> bool {
        &&& MANDATORY_SECTIONS <= self@.len() <= MAX_SECTIONS
        &&& interface_of(self@[1]) == Outcome::Widgets(self.widget_list())
    }

    /// A document of the given sections, or `None` when a mandatory section
    /// is absent, there are more sections than the fixed order names, or the
    /// interface section does not read.
    pub fn from_sections(sections: Vec<String>) -> (r: Option<Document>)
        ensures
            r is Some <==> MANDATORY_SECTIONS <= sections@.len() <= MAX_SECTIONS
                && interface_of(sections@[1]@) is Widgets,
            r is Some ==> r->0@ == texts(sections@) && r->0.wf(),
    {
        if sections.len() >= MANDATORY_SECTIONS && sections.len() <= MAX_SECTIONS {
            match parse_interface(sections[1].as_str()) {
                Ok(widgets) => Some(Document { sections, widgets }),
                Err(e) => {
                    assert(!(error_outcome(e) is Widgets));
                    None
                },
            }
        } else {
            None
        }
    }

    /// The text of a section, if the document has it.
    pub fn section(&self, which: Section) -> (r: Option<&String>)
        ensures
            r is Some <==> which.position() < self@.len(),
            r is Some ==> r->0@ == self@[which.position() as int],
    {
        let i = which.index();
        if i < self.sections.len() {
            Some(&self.sections[i])
        } else {
            None
        }
    }

    pub fn sections(&self) -> (r: &Vec<String>)
        ensures
            texts(r@) == self@,
    {
        &self.sections
    }

    pub fn widgets(&self) -> (r: &Vec<Widget>)
        ensures
            widget_views(r@) == self.widget_list(),
    {
        &self.widgets
    }
}

/// Reads a native text into its sections, the text cut at the first
/// delimiters, at most as many as there are sections after the first, and
/// reads the widgets of its interface section.
pub fn parse_native(text: &str) -> (r: Result<Document, NativeError>)
    ensures
        sections_of(text@).len() < MANDATORY_SECTIONS ==> r == Err::<Document, NativeError>(
            NativeError::MissingSection(section_at(sections_of(text@).len() as int)),
        ),
        sections_of(text@).len() >= MANDATORY_SECTIONS ==> (r is Ok <==> interface_of(
            sections_of(text@)[1],
        ) is Widgets),
        sections_of(text@).len() >= MANDATORY_SECTIONS && r is Err ==> error_outcome(r->Err_0)
            == interface_of(sections_of(text@)[1]),
        r is Ok ==> r->Ok_0@ == sections_of(text@) && r->Ok_0.wf(),
{
    let cs = chars_of(text);
    let ghost s = cs@;
    let ghost top = (MAX_SECTIONS - 1) as nat;
    let n = cs.len();
    let mut secs: Vec<String> = Vec::new();
    let mut start: usize = 0;
    let mut count: usize = 0;
    while count < MAX_SECTIONS - 1
        invariant
            s == cs@,
            n == s.len(),
            top == 8,
            count <= 8,
            start <= s.len(),
            texts(secs@) + split_from(s, start as int, (top - count) as nat) == split_from(s, 0, top),
        ensures
            count <= 8,
            start <= s.len(),
            texts(secs@) + split_from(s, start as int, (top - count) as nat) == split_from(s, 0, top),
            count == 8 || find_from(s, start as int) < 0,
        decreases 8 - count,
    {
        match find_delim(&cs, start) {
            None => {
                break;
            },
            Some(p) => {
                proof {
                    lemma_find_from(s, start as int);
                }
                let part = string_between(&cs, start, p);
                let ghost before = texts(secs@);
                let ghost rest = split_from(s, p + 9, (top - count - 1) as nat);
                assert(split_from(s, start as int, (top - count) as nat) == seq![part@] + rest);
                secs.push(part);
                assert(texts(secs@) =~= before.push(part@));
                assert(texts(secs@) + rest =~= before + (seq![part@] + rest));
                assert(p + 9 <= s.len());
                start = p + 9;
                count = count + 1;
            },
        }
    }
    let last = string_between(&cs, start, n);
    let ghost before = texts(secs@);
    assert(split_from(s, start as int, (top - count) as nat) == seq![last@]);
    secs.push(last);
    assert(texts(secs@) =~= before + seq![last@]);
    proof {
        lemma_split_len(s, 0, top);
    }
    if secs.len() < MANDATORY_SECTIONS {
        return Err(NativeError::MissingSection(Section::at(secs.len())));
    }
    match parse_interface(secs[1].as_str()) {
        Ok(widgets) => Ok(Document { sections: secs, widgets }),
        Err(e) => {
            assert(!(error_outcome(e) is Widgets));
            Err(e)
        },
    }
}

/// Writes a document's sections in order with the delimiter between them.
pub fn render_native(doc: &Document) -> (r: String)
    ensures
        r@ == join(doc@, delim()),
{
    let sep = "@#$#@#$#@";
    proof {
        reveal_strlit("@#$#@#$#@");
    }
    assert(sep@ =~= delim());
    crate::util::join_strings(&doc.sections, sep)
}

} // verus!
