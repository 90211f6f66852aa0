use vstd::prelude::*;
use crate::native::NativeError;
use crate::number::{int_text, is_digit, lemma_int_text, parse_int, push_int, small_int_of};
use crate::util::{
    chars_of, clean_line, lemma_lines_of_terminated, lemma_terminated_concat, lines_of, push_char,
    push_text, split_lines, terminated, texts,
};

verus! {

/// The kinds of interface widget.
#[derive(Clone, Copy, Debug, PartialEq, Eq, Structural)]
pub enum WidgetKind {
    Button,
    Slider,
    Switch,
    Chooser,
    InputBox,
    Monitor,
    Plot,
    Output,
    View,
    TextBox,
    Note,
}

/// The keyword that opens a block of the given kind.
pub open spec fn keyword(k: WidgetKind) -> Seq<char> {
    match k {
        WidgetKind::Button => "BUTTON"@,
        WidgetKind::Slider => "SLIDER"@,
        WidgetKind::Switch => "SWITCH"@,
        WidgetKind::Chooser => "CHOOSER"@,
        WidgetKind::InputBox => "INPUTBOX"@,
        WidgetKind::Monitor => "MONITOR"@,
        WidgetKind::Plot => "PLOT"@,
        WidgetKind::Output => "OUTPUT"@,
        WidgetKind::View => "GRAPHICS-WINDOW"@,
        WidgetKind::TextBox => "TEXTBOX"@,
        WidgetKind::Note => "NOTE"@,
    }
}

/// The number of lines after the keyword that a block of the kind needs:
/// the four coordinates, then the kind's own fields.
pub open spec fn field_lines(k: WidgetKind) -> nat {
    match k {
        WidgetKind::Button => 15,
        WidgetKind::Slider => 13,
        WidgetKind::Switch => 9,
        WidgetKind::Chooser => 8,
        WidgetKind::InputBox => 9,
        WidgetKind::Monitor => 9,
        WidgetKind::Plot => 16,
        WidgetKind::Output => 5,
        WidgetKind::View => 26,
        WidgetKind::TextBox => 8,
        WidgetKind::Note => 5,
    }
}

/// The kind whose keyword is `line`, if any.
pub open spec fn kind_of(line: Seq<char>) -> Option<WidgetKind> {
    if line == keyword(WidgetKind::Button) {
        Some(WidgetKind::Button)
    } else if line == keyword(WidgetKind::Slider) {
        Some(WidgetKind::Slider)
    } else if line == keyword(WidgetKind::Switch) {
        Some(WidgetKind::Switch)
    } else if line == keyword(WidgetKind::Chooser) {
        Some(WidgetKind::Chooser)
    } else if line == keyword(WidgetKind::InputBox) {
        Some(WidgetKind::InputBox)
    } else if line == keyword(WidgetKind::Monitor) {
        Some(WidgetKind::Monitor)
    } else if line == keyword(WidgetKind::Plot) {
        Some(WidgetKind::Plot)
    } else if line == keyword(WidgetKind::Output) {
        Some(WidgetKind::Output)
    } else if line == keyword(WidgetKind::View) {
        Some(WidgetKind::View)
    } else if line == keyword(WidgetKind::TextBox) {
        Some(WidgetKind::TextBox)
    } else if line == keyword(WidgetKind::Note) {
        Some(WidgetKind::Note)
    } else {
        None
    }
}

/// Whether two texts hold the same characters.
pub fn same_text(a: &str, b: &str) -> (r: bool)
    ensures
        r == (a@ == b@),
{
    let x = chars_of(a);
    let y = chars_of(b);
    if x.len() != y.len() {
        return false;
    }
    let n = x.len();
    for i in 0..n
        invariant
            n == x@.len(),
            n == y@.len(),
            x@ == a@,
            y@ == b@,
            forall|k: int| 0 <= k < i ==> x@[k] == y@[k],
    {
        if x[i] != y[i] {
            return false;
        }
    }
    assert(x@ =~= y@);
    true
}

impl WidgetKind {
    /// The kind whose keyword is `line`, if any.
    pub fn from_keyword(line: &str) -> (r: Option<WidgetKind>)
        ensures
            r == kind_of(line@),
    {
        if same_text(line, "BUTTON") {
            Some(WidgetKind::Button)
        } else if same_text(line, "SLIDER") {
            Some(WidgetKind::Slider)
        } else if same_text(line, "SWITCH") {
            Some(WidgetKind::Switch)
        } else if same_text(line, "CHOOSER") {
            Some(WidgetKind::Chooser)
        } else if same_text(line, "INPUTBOX") {
            Some(WidgetKind::InputBox)
        } else if same_text(line, "MONITOR") {
            Some(WidgetKind::Monitor)
        } else if same_text(line, "PLOT") {
            Some(WidgetKind::Plot)
        } else if same_text(line, "OUTPUT") {
            Some(WidgetKind::Output)
        } else if same_text(line, "GRAPHICS-WINDOW") {
            Some(WidgetKind::View)
        } else if same_text(line, "TEXTBOX") {
            Some(WidgetKind::TextBox)
        } else if same_text(line, "NOTE") {
            Some(WidgetKind::Note)
        } else {
            None
        }
    }

    /// The number of lines after the keyword that a block of this kind needs.
    pub fn field_count(self) -> (n: usize)
        ensures
            n == field_lines(self),
    {
        match self {
            WidgetKind::Button => 15,
            WidgetKind::Slider => 13,
            WidgetKind::Switch => 9,
            WidgetKind::Chooser => 8,
            WidgetKind::InputBox => 9,
            WidgetKind::Monitor => 9,
            WidgetKind::Plot => 16,
            WidgetKind::Output => 5,
            WidgetKind::View => 26,
            WidgetKind::TextBox => 8,
            WidgetKind::Note => 5,
        }
    }
}


/// A widget of the interface section: its kind, its bounding rectangle, and
/// the lines of its kind's own fields, as written.
#[derive(Debug, PartialEq, Eq)]
pub struct Widget {
    pub kind: WidgetKind,
    pub left: i64,
    pub top: i64,
    pub right: i64,
    pub bottom: i64,
    pub fields: Vec<String>,
}

/// What a widget holds: kind, left, top, right, bottom and field lines.
pub type WidgetView = (WidgetKind, int, int, int, int, Seq<Seq<char>>);

pub open spec fn widget_view(w: Widget) -> WidgetView {
    (w.kind, w.left as int, w.top as int, w.right as int, w.bottom as int, texts(w.fields@))
}

pub open spec fn widget_views(ws: Seq<Widget>) -> Seq<WidgetView> {
    ws.map_values(|w: Widget| widget_view(w))
}

/// What reading an interface section comes to: its widgets, or the first
/// error with what it reports.
pub enum Outcome {
    Widgets(Seq<WidgetView>),
    Unknown(Seq<char>, int),
    Truncated(Seq<char>, int),
    Invalid(Seq<char>, Seq<char>, int, Seq<char>),
    Other,
}

/// The outcome that an executable result reports.
pub open spec fn outcome_of(r: Result<Vec<Widget>, NativeError>) -> Outcome {
    match r {
        Ok(ws) => Outcome::Widgets(widget_views(ws@)),
        Err(e) => error_outcome(e),
    }
}

/// The outcome that an error reports.
pub open spec fn error_outcome(e: NativeError) -> Outcome {
    match e {
        NativeError::UnknownWidgetKind(k, n) => Outcome::Unknown(k@, n as int),
        NativeError::TruncatedWidget(k, n) => Outcome::Truncated(k@, n as int),
        NativeError::InvalidField(k, f, n, raw) => Outcome::Invalid(k@, f@, n as int, raw@),
        NativeError::MissingSection(_) => Outcome::Other,
    }
}

/// The widgets `ws` put before those of `o`; an error stays as it is.
pub open spec fn prepend(ws: Seq<WidgetView>, o: Outcome) -> Outcome {
    match o {
        Outcome::Widgets(rest) => Outcome::Widgets(ws + rest),
        _ => o,
    }
}

/// The names of the four coordinate fields, in order.
pub open spec fn coord_name(f: int) -> Seq<char> {
    if f == 0 {
        "left"@
    } else if f == 1 {
        "top"@
    } else if f == 2 {
        "right"@
    } else {
        "bottom"@
    }
}

/// The first line at or after `i` that is empty, or the number of lines.
pub open spec fn block_end(ls: Seq<Seq<char>>, i: int) -> int
    decreases ls.len() - i,
{
    if i < 0 || i >= ls.len() || ls[i].len() == 0 {
        i
    } else {
        block_end(ls, i + 1)
    }
}

/// The widget of the block that holds lines `i` up to `j` (not included),
/// or the error that reading it meets first.
pub open spec fn block_widget(ls: Seq<Seq<char>>, i: int, j: int) -> Result<WidgetView, Outcome> {
    let kw = ls[i];
    match kind_of(kw) {
        None => Err(Outcome::Unknown(kw, i + 1)),
        Some(k) => if j - i - 1 < field_lines(k) {
            Err(Outcome::Truncated(kw, i + 1))
        } else if small_int_of(ls[i + 1]) is None {
            Err(Outcome::Invalid(kw, coord_name(0), i + 2, ls[i + 1]))
        } else if small_int_of(ls[i + 2]) is None {
            Err(Outcome::Invalid(kw, coord_name(1), i + 3, ls[i + 2]))
        } else if small_int_of(ls[i + 3]) is None {
            Err(Outcome::Invalid(kw, coord_name(2), i + 4, ls[i + 3]))
        } else if small_int_of(ls[i + 4]) is None {
            Err(Outcome::Invalid(kw, coord_name(3), i + 5, ls[i + 4]))
        } else {
            let l = small_int_of(ls[i + 1])->0;
            let t = small_int_of(ls[i + 2])->0;
            let r = small_int_of(ls[i + 3])->0;
            let b = small_int_of(ls[i + 4])->0;
            if r < l {
                Err(Outcome::Invalid(kw, coord_name(2), i + 4, ls[i + 3]))
            } else if b < t {
                Err(Outcome::Invalid(kw, coord_name(3), i + 5, ls[i + 4]))
            } else {
                Ok((k, l, t, r, b, ls.subrange(i + 5, j)))
            }
        },
    }
}

/// Reading the lines from `i` on: blocks are runs of nonempty lines, each
/// opened by its keyword line.
pub open spec fn interface_from(ls: Seq<Seq<char>>, i: int) -> Outcome
    decreases ls.len() - i,
{
    if i < 0 || i >= ls.len() {
        Outcome::Widgets(Seq::empty())
    } else if ls[i].len() == 0 {
        interface_from(ls, i + 1)
    } else {
        let j = block_end(ls, i);
        if j <= i || j > ls.len() {
            Outcome::Other
        } else {
            match block_widget(ls, i, j) {
                Err(o) => o,
                Ok(w) => prepend(seq![w], interface_from(ls, j)),
            }
        }
    }
}

/// What reading the interface text `s` comes to.
pub open spec fn interface_of(s: Seq<char>) -> Outcome {
    interface_from(lines_of(s), 0)
}


/// The lines from `i` up to the block's end are nonempty, and the block ends
/// at the last line or at an empty one.
pub proof fn lemma_block_end(ls: Seq<Seq<char>>, i: int)
    requires
        0 <= i <= ls.len(),
    ensures
        i <= block_end(ls, i) <= ls.len(),
        block_end(ls, i) == ls.len() || ls[block_end(ls, i)].len() == 0,
        forall|k: int| i <= k < block_end(ls, i) ==> ls[k].len() > 0,
    decreases ls.len() - i,
{
    if i < ls.len() && ls[i].len() > 0 {
        lemma_block_end(ls, i + 1);
    }
}

/// The name of coordinate field `f`.
fn coord_field_name(f: usize) -> (r: String)
    requires
        f < 4,
    ensures
        r@ == coord_name(f as int),
{
    let lit = if f == 0 {
        "left"
    } else if f == 1 {
        "top"
    } else if f == 2 {
        "right"
    } else {
        "bottom"
    };
    let mut r = String::new();
    crate::util::push_text(&mut r, lit);
    r
}

/// The coordinate on line `idx` of a block opened by `kw`.
fn read_coord(lines: &Vec<String>, idx: usize, kw: &String, f: usize) -> (r: Result<i64, NativeError>)
    requires
        idx < lines@.len(),
        f < 4,
    ensures
        r is Ok <==> small_int_of(lines@[idx as int]@) is Some,
        r is Ok ==> r->Ok_0 == small_int_of(lines@[idx as int]@)->0,
        r is Err ==> error_outcome(r->Err_0) == Outcome::Invalid(kw@, coord_name(f as int), idx + 1, lines@[idx as int]@),
{
    let _n = lines.len();
    match parse_int(lines[idx].as_str()) {
        Some(v) => Ok(v),
        None => Err(NativeError::InvalidField(kw.clone(), coord_field_name(f), idx + 1, lines[idx].clone())),
    }
}

/// Reads the block of lines `i` up to `j` (not included) as a widget.
fn read_block(lines: &Vec<String>, i: usize, j: usize) -> (r: Result<Widget, NativeError>)
    requires
        i < j <= lines@.len(),
    ensures
        block_widget(texts(lines@), i as int, j as int) is Ok ==> r is Ok && widget_view(r->Ok_0)
            == block_widget(texts(lines@), i as int, j as int)->Ok_0,
        block_widget(texts(lines@), i as int, j as int) is Err ==> r is Err && error_outcome(r->Err_0)
            == block_widget(texts(lines@), i as int, j as int)->Err_0,
{
    let ghost ls = texts(lines@);
    let kw = &lines[i];
    let kind = match WidgetKind::from_keyword(kw.as_str()) {
        None => {
            return Err(NativeError::UnknownWidgetKind(kw.clone(), i + 1));
        },
        Some(k) => k,
    };
    if j - i - 1 < kind.field_count() {
        return Err(NativeError::TruncatedWidget(kw.clone(), i + 1));
    }
    let left = match read_coord(lines, i + 1, kw, 0) {
        Ok(v) => v,
        Err(e) => {
            return Err(e);
        },
    };
    let top = match read_coord(lines, i + 2, kw, 1) {
        Ok(v) => v,
        Err(e) => {
            return Err(e);
        },
    };
    let right = match read_coord(lines, i + 3, kw, 2) {
        Ok(v) => v,
        Err(e) => {
            return Err(e);
        },
    };
    let bottom = match read_coord(lines, i + 4, kw, 3) {
        Ok(v) => v,
        Err(e) => {
            return Err(e);
        },
    };
    if right < left {
        return Err(NativeError::InvalidField(kw.clone(), coord_field_name(2), i + 4, lines[i + 3].clone()));
    }
    if bottom < top {
        return Err(NativeError::InvalidField(kw.clone(), coord_field_name(3), i + 5, lines[i + 4].clone()));
    }
    let mut fields: Vec<String> = Vec::new();
    for k in i + 5..j
        invariant
            i + 5 <= j <= lines@.len(),
            texts(fields@) == ls.subrange(i + 5, k as int),
            ls == texts(lines@),
    {
        let ghost before = fields@;
        let c = lines[k].clone();
        assert(c@ == ls[k as int]);
        fields.push(c);
        assert(fields@ == before.push(c));
        assert(texts(fields@) =~= texts(before).push(c@));
        assert(texts(fields@) =~= ls.subrange(i + 5, k + 1));
    }
    Ok(Widget { kind, left, top, right, bottom, fields })
}


/// Reads an interface section into its widgets: blocks of nonempty lines,
/// each opened by a kind's keyword, then the four coordinates and the kind's
/// fields; any error ends the reading.
pub fn parse_interface(text: &str) -> (r: Result<Vec<Widget>, NativeError>)
    ensures
        outcome_of(r) == interface_of(text@),
{
    let lines = split_lines(text);
    let ghost ls = texts(lines@);
    let n = lines.len();
    let mut out: Vec<Widget> = Vec::new();
    let mut i: usize = 0;
    while i < n
        invariant
            n == lines@.len(),
            ls == texts(lines@),
            ls == lines_of(text@),
            i <= n,
            interface_from(ls, 0) == prepend(widget_views(out@), interface_from(ls, i as int)),
        decreases n - i,
    {
        if lines[i].as_str().is_empty() {
            assert(ls[i as int].len() == 0);
            i = i + 1;
        } else {
            let mut j = i + 1;
            while j < n && !lines[j].as_str().is_empty()
                invariant
                    n == lines@.len(),
                    ls == texts(lines@),
                    i < j <= n,
                    forall|k: int| i <= k < j ==> ls[k].len() > 0,
                decreases n - j,
            {
                j = j + 1;
            }
            proof {
                lemma_block_end(ls, i as int);
                let e = block_end(ls, i as int);
                if e < j {
                    assert(ls[e].len() > 0);
                }
                if j < e {
                    assert(ls[j as int].len() > 0);
                }
                assert(e == j);
            }
            match read_block(&lines, i, j) {
                Err(e) => {
                    return Err(e);
                },
                Ok(w) => {
                    let ghost before = out@;
                    let ghost rest = interface_from(ls, j as int);
                    out.push(w);
                    assert(widget_views(out@) =~= widget_views(before) + seq![widget_view(w)]);
                    proof {
                        if let Outcome::Widgets(ws) = rest {
                            assert(widget_views(before) + (seq![widget_view(w)] + ws)
                                =~= widget_views(out@) + ws);
                        }
                    }
                    i = j;
                },
            }
        }
    }
    assert(widget_views(out@) + Seq::<WidgetView>::empty() =~= widget_views(out@));
    Ok(out)
}


/// Each field line with a `\n` before it.
pub open spec fn fields_text(fs: Seq<Seq<char>>) -> Seq<char>
    decreases fs.len(),
{
    if fs.len() == 0 {
        Seq::empty()
    } else {
        fields_text(fs.drop_last()) + seq!['\n'] + fs.last()
    }
}

/// A widget's block: keyword, coordinates and fields, one per line, then an
/// empty line.
pub open spec fn block_text(w: WidgetView) -> Seq<char> {
    keyword(w.0) + seq!['\n'] + int_text(w.1) + seq!['\n'] + int_text(w.2) + seq!['\n']
        + int_text(w.3) + seq!['\n'] + int_text(w.4) + fields_text(w.5) + seq!['\n', '\n']
}

/// The blocks of the widgets, in order.
pub open spec fn interface_text(ws: Seq<WidgetView>) -> Seq<char>
    decreases ws.len(),
{
    if ws.len() == 0 {
        Seq::empty()
    } else {
        interface_text(ws.drop_last()) + block_text(ws.last())
    }
}

impl WidgetKind {
    /// The keyword that opens a block of this kind.
    pub fn keyword_text(self) -> (r: &'static str)
        ensures
            r@ == keyword(self),
    {
        match self {
            WidgetKind::Button => "BUTTON",
            WidgetKind::Slider => "SLIDER",
            WidgetKind::Switch => "SWITCH",
            WidgetKind::Chooser => "CHOOSER",
            WidgetKind::InputBox => "INPUTBOX",
            WidgetKind::Monitor => "MONITOR",
            WidgetKind::Plot => "PLOT",
            WidgetKind::Output => "OUTPUT",
            WidgetKind::View => "GRAPHICS-WINDOW",
            WidgetKind::TextBox => "TEXTBOX",
            WidgetKind::Note => "NOTE",
        }
    }
}

/// Appends the block of one widget.
#[verifier::rlimit(40)]
fn push_block(out: &mut String, w: &Widget)
    ensures
        final(out)@ == old(out)@ + block_text(widget_view(*w)),
{
    let ghost start = out@;
    push_text(out, w.kind.keyword_text());
    push_char(out, '\n');
    push_int(out, w.left);
    push_char(out, '\n');
    push_int(out, w.top);
    push_char(out, '\n');
    push_int(out, w.right);
    push_char(out, '\n');
    push_int(out, w.bottom);
    let ghost head = out@;
    let n = w.fields.len();
    for k in 0..n
        invariant
            n == w.fields@.len(),
            out@ == head + fields_text(texts(w.fields@).take(k as int)),
    {
        assert(texts(w.fields@).take(k + 1).drop_last() =~= texts(w.fields@).take(k as int));
        push_char(out, '\n');
        push_text(out, w.fields[k].as_str());
        assert(out@ =~= head + fields_text(texts(w.fields@).take(k + 1)));
    }
    assert(texts(w.fields@).take(n as int) =~= texts(w.fields@));
    push_char(out, '\n');
    push_char(out, '\n');
    assert(out@ =~= start + block_text(widget_view(*w)));
}

/// Writes the widgets as an interface section: each block followed by an
/// empty line.
pub fn render_interface(ws: &Vec<Widget>) -> (r: String)
    ensures
        r@ == interface_text(widget_views(ws@)),
{
    let mut out = String::new();
    let n = ws.len();
    for k in 0..n
        invariant
            n == ws@.len(),
            out@ == interface_text(widget_views(ws@).take(k as int)),
    {
        assert(widget_views(ws@).take(k + 1).drop_last() =~= widget_views(ws@).take(k as int));
        push_block(&mut out, &ws[k]);
        assert(out@ =~= interface_text(widget_views(ws@).take(k + 1)));
    }
    assert(widget_views(ws@).take(n as int) =~= widget_views(ws@));
    out
}


/// The lines of a widget's block, the empty line after it included.
pub open spec fn block_lines(w: WidgetView) -> Seq<Seq<char>> {
    seq![keyword(w.0), int_text(w.1), int_text(w.2), int_text(w.3), int_text(w.4)] + w.5 + seq![
        Seq::empty(),
    ]
}

/// The lines of the blocks of the widgets, in order.
pub open spec fn all_lines(ws: Seq<WidgetView>) -> Seq<Seq<char>>
    decreases ws.len(),
{
    if ws.len() == 0 {
        Seq::empty()
    } else {
        all_lines(ws.drop_last()) + block_lines(ws.last())
    }
}

/// A widget that its block describes exactly: enough fields, each a
/// nonempty line, coordinates whose magnitude fits an `i64`, and a rectangle
/// with left not past right and top not past bottom.
pub open spec fn plain_widget(w: WidgetView) -> bool {
    &&& w.5.len() + 4 >= field_lines(w.0)
    &&& forall|i: int| 0 <= i < w.5.len() ==> (#[trigger] w.5[i]).len() > 0 && clean_line(w.5[i])
    &&& -i64::MAX <= w.1 <= i64::MAX
    &&& -i64::MAX <= w.2 <= i64::MAX
    &&& -i64::MAX <= w.3 <= i64::MAX
    &&& -i64::MAX <= w.4 <= i64::MAX
    &&& w.1 <= w.3
    &&& w.2 <= w.4
}

/// A keyword is a nonempty line that names its own kind.
proof fn lemma_keyword(k: WidgetKind)
    ensures
        kind_of(keyword(k)) == Some(k),
        keyword(k).len() > 0,
        clean_line(keyword(k)),
{
    reveal_strlit("BUTTON");
    reveal_strlit("SLIDER");
    reveal_strlit("SWITCH");
    reveal_strlit("CHOOSER");
    reveal_strlit("INPUTBOX");
    reveal_strlit("MONITOR");
    reveal_strlit("PLOT");
    reveal_strlit("OUTPUT");
    reveal_strlit("GRAPHICS-WINDOW");
    reveal_strlit("TEXTBOX");
    reveal_strlit("NOTE");
    let kw = keyword(k);
    assert(kw[0] != "BUTTON"@[0] ==> kw != "BUTTON"@);
    assert(kw[1] != "SLIDER"@[1] ==> kw != "SLIDER"@);
    assert(kw[1] != "SWITCH"@[1] ==> kw != "SWITCH"@);
    assert(kw[0] != "CHOOSER"@[0] ==> kw != "CHOOSER"@);
    assert(kw[0] != "INPUTBOX"@[0] ==> kw != "INPUTBOX"@);
    assert(kw[0] != "MONITOR"@[0] ==> kw != "MONITOR"@);
    assert(kw[0] != "PLOT"@[0] ==> kw != "PLOT"@);
    assert(kw[0] != "OUTPUT"@[0] ==> kw != "OUTPUT"@);
    assert(kw[0] != "GRAPHICS-WINDOW"@[0] ==> kw != "GRAPHICS-WINDOW"@);
    assert(kw[0] != "TEXTBOX"@[0] ==> kw != "TEXTBOX"@);
    assert(kw[0] != "NOTE"@[0] ==> kw != "NOTE"@);
}


/// A first line then more lines, terminated, is the first line, the more
/// lines each after a `\n`, and a final `\n`.
proof fn lemma_terminated_fields(x: Seq<char>, fs: Seq<Seq<char>>)
    ensures
        terminated(seq![x] + fs) == x + fields_text(fs) + seq!['\n'],
    decreases fs.len(),
{
    let all = seq![x] + fs;
    if fs.len() == 0 {
        assert(all =~= seq![x]);
        assert(all.drop_last().len() == 0);
        assert(terminated(all.drop_last()) == Seq::<char>::empty());
        assert(all.last() == x);
        assert(fields_text(fs) =~= Seq::<char>::empty());
        assert(terminated(all) =~= x + fields_text(fs) + seq!['\n']);
    } else {
        lemma_terminated_fields(x, fs.drop_last());
        assert(all.drop_last() =~= seq![x] + fs.drop_last());
        assert(terminated(all) =~= x + fields_text(fs) + seq!['\n']);
    }
}

/// Terminating one more line appends it and a `\n`.
proof fn lemma_terminated_push(ls: Seq<Seq<char>>, x: Seq<char>)
    ensures
        terminated(ls.push(x)) == terminated(ls) + x + seq!['\n'],
{
    assert(ls.push(x).drop_last() =~= ls);
}

/// A widget's block is its lines, terminated.
proof fn lemma_block_text(w: WidgetView)
    ensures
        block_text(w) == terminated(block_lines(w)),
{
    let head = seq![keyword(w.0), int_text(w.1), int_text(w.2), int_text(w.3)];
    let tail = seq![int_text(w.4)] + w.5;
    let e = seq![Seq::<char>::empty()];
    assert(block_lines(w) =~= head + tail + e);
    lemma_terminated_concat(head + tail, e);
    lemma_terminated_concat(head, tail);
    lemma_terminated_fields(int_text(w.4), w.5);
    let z = Seq::<Seq<char>>::empty();
    lemma_terminated_push(z, keyword(w.0));
    lemma_terminated_push(z.push(keyword(w.0)), int_text(w.1));
    lemma_terminated_push(z.push(keyword(w.0)).push(int_text(w.1)), int_text(w.2));
    lemma_terminated_push(z.push(keyword(w.0)).push(int_text(w.1)).push(int_text(w.2)), int_text(w.3));
    assert(z.push(keyword(w.0)).push(int_text(w.1)).push(int_text(w.2)).push(int_text(w.3)) =~= head);
    assert(terminated(z) == Seq::<char>::empty());
    lemma_terminated_push(z, Seq::<char>::empty());
    assert(z.push(Seq::<char>::empty()) =~= e);
    assert(block_text(w) =~= terminated(block_lines(w)));
}

/// The interface text of the widgets is their lines, terminated.
proof fn lemma_interface_text(ws: Seq<WidgetView>)
    ensures
        interface_text(ws) == terminated(all_lines(ws)),
    decreases ws.len(),
{
    if ws.len() > 0 {
        lemma_interface_text(ws.drop_last());
        lemma_block_text(ws.last());
        lemma_terminated_concat(all_lines(ws.drop_last()), block_lines(ws.last()));
    }
}

/// The lines of the widgets are those of the first, then those of the rest.
proof fn lemma_all_lines_front(ws: Seq<WidgetView>)
    requires
        ws.len() > 0,
    ensures
        all_lines(ws) == block_lines(ws[0]) + all_lines(ws.drop_first()),
    decreases ws.len(),
{
    if ws.len() == 1 {
        assert(ws.drop_last().len() == 0);
        assert(ws.drop_first().len() == 0);
        assert(all_lines(ws.drop_last()) == Seq::<Seq<char>>::empty());
        assert(all_lines(ws.drop_first()) == Seq::<Seq<char>>::empty());
        assert(ws.last() == ws[0]);
        assert(all_lines(ws) =~= block_lines(ws[0]) + all_lines(ws.drop_first()));
    } else {
        lemma_all_lines_front(ws.drop_last());
        assert(ws.drop_last().drop_first() =~= ws.drop_first().drop_last());
        assert(ws.drop_first().last() == ws.last());
        assert(all_lines(ws) =~= block_lines(ws[0]) + all_lines(ws.drop_first()));
    }
}


/// The lines of a plain widget's block can stand as lines.
proof fn lemma_block_clean(w: WidgetView)
    requires
        plain_widget(w),
    ensures
        forall|m: int| 0 <= m < block_lines(w).len() ==> clean_line(#[trigger] block_lines(w)[m]),
        forall|m: int| 0 <= m < block_lines(w).len() - 1 ==> (#[trigger] block_lines(w)[m]).len() > 0,
        block_lines(w).last().len() == 0,
{
    lemma_keyword(w.0);
    let bl = block_lines(w);
    assert forall|m: int| 1 <= m < 5 implies clean_line(#[trigger] bl[m]) && bl[m].len() > 0 by {
        let v = if m == 1 {
            w.1
        } else if m == 2 {
            w.2
        } else if m == 3 {
            w.3
        } else {
            w.4
        };
        assert(bl[m] == int_text(v));
        lemma_int_text(v);
        assert(!is_digit('\n') && !is_digit('\r'));
        assert forall|i: int| 0 <= i < int_text(v).len() implies int_text(v)[i] != '\n' by {
            assert(int_text(v)[i] == '-' || is_digit(int_text(v)[i]));
        }
    }
    assert forall|m: int| 5 <= m < bl.len() - 1 implies clean_line(#[trigger] bl[m]) && bl[m].len() > 0 by {
        assert(bl[m] == w.5[m - 5]);
    }
    assert(bl[0] == keyword(w.0));
    assert(clean_line(bl.last()));
}

/// The lines of plain widgets can all stand as lines.
proof fn lemma_all_lines_clean(ws: Seq<WidgetView>)
    requires
        forall|k: int| 0 <= k < ws.len() ==> plain_widget(#[trigger] ws[k]),
    ensures
        forall|m: int| 0 <= m < all_lines(ws).len() ==> clean_line(#[trigger] all_lines(ws)[m]),
    decreases ws.len(),
{
    if ws.len() > 0 {
        let front = ws.drop_last();
        assert forall|k: int| 0 <= k < front.len() implies plain_widget(#[trigger] front[k]) by {
            assert(front[k] == ws[k]);
        }
        lemma_all_lines_clean(front);
        lemma_block_clean(ws.last());
        let a = all_lines(front);
        let b = block_lines(ws.last());
        assert forall|m: int| 0 <= m < all_lines(ws).len() implies clean_line(#[trigger] all_lines(ws)[m]) by {
            if m < a.len() {
                assert(all_lines(ws)[m] == a[m]);
            } else {
                assert(all_lines(ws)[m] == b[m - a.len()]);
            }
        }
    }
}

/// Reading lines that are the blocks of plain widgets gives those widgets.
proof fn lemma_parse_lines(ls: Seq<Seq<char>>, i: int, ws: Seq<WidgetView>)
    requires
        0 <= i <= ls.len(),
        ls.subrange(i, ls.len() as int) == all_lines(ws),
        forall|k: int| 0 <= k < ws.len() ==> plain_widget(#[trigger] ws[k]),
    ensures
        interface_from(ls, i) == Outcome::Widgets(ws),
    decreases ws.len(),
{
    if ws.len() == 0 {
        assert(ls.subrange(i, ls.len() as int).len() == 0);
        assert(Seq::<WidgetView>::empty() =~= ws);
    } else {
        let w = ws[0];
        let rest = ws.drop_first();
        let bl = block_lines(w);
        lemma_all_lines_front(ws);
        assert(plain_widget(w));
        lemma_block_clean(w);
        lemma_keyword(w.0);
        lemma_int_text(w.1);
        lemma_int_text(w.2);
        lemma_int_text(w.3);
        lemma_int_text(w.4);
        let n = bl.len() as int;
        let tail = all_lines(rest);
        assert(all_lines(ws) == bl + tail);
        assert(all_lines(ws).len() == n + tail.len());
        assert(ls.len() - i == n + tail.len());
        assert forall|m: int| 0 <= m < n implies ls[i + m] == #[trigger] bl[m] by {
            assert(ls.subrange(i, ls.len() as int)[m] == all_lines(ws)[m]);
            assert((bl + tail)[m] == bl[m]);
        }
        let j = i + n - 1;
        assert(ls[j].len() == 0) by {
            assert(ls[i + (n - 1)] == bl[n - 1]);
        }
        assert forall|k: int| i <= k < j implies ls[k].len() > 0 by {
            assert(ls[i + (k - i)] == bl[k - i]);
        }
        lemma_block_end(ls, i);
        let e = block_end(ls, i);
        if e < j {
            assert(ls[e].len() > 0);
        }
        if j < e {
            assert(ls[j].len() > 0);
        }
        assert(e == j);
        assert(ls[i] == bl[0]);
        assert(ls[i + 1] == bl[1]);
        assert(ls[i + 2] == bl[2]);
        assert(ls[i + 3] == bl[3]);
        assert(ls[i + 4] == bl[4]);
        assert(ls.subrange(i + 5, j) =~= w.5) by {
            assert forall|m: int| 0 <= m < w.5.len() implies ls.subrange(i + 5, j)[m] == w.5[m] by {
                assert(ls[i + (5 + m)] == bl[5 + m]);
            }
        }
        assert(block_widget(ls, i, j) == Ok::<WidgetView, Outcome>(w));
        assert(ls.subrange(j + 1, ls.len() as int) =~= tail) by {
            assert forall|m: int| 0 <= m < tail.len() implies ls.subrange(j + 1, ls.len() as int)[m]
                == tail[m] by {
                assert(ls.subrange(i, ls.len() as int)[n + m] == all_lines(ws)[n + m]);
                assert((bl + tail)[n + m] == tail[m]);
            }
        }
        assert forall|k: int| 0 <= k < rest.len() implies plain_widget(#[trigger] rest[k]) by {
            assert(rest[k] == ws[k + 1]);
        }
        lemma_parse_lines(ls, j + 1, rest);
        assert(interface_from(ls, j) == interface_from(ls, j + 1));
        assert(seq![w] + rest =~= ws);
    }
}

/// Reading back the interface text of plain widgets gives the same widgets.
pub proof fn lemma_interface_round_trip(ws: Seq<WidgetView>)
    requires
        forall|k: int| 0 <= k < ws.len() ==> plain_widget(#[trigger] ws[k]),
    ensures
        interface_of(interface_text(ws)) == Outcome::Widgets(ws),
{
    lemma_interface_text(ws);
    lemma_all_lines_clean(ws);
    lemma_lines_of_terminated(all_lines(ws));
    let ls = all_lines(ws);
    assert(ls.subrange(0, ls.len() as int) =~= ls);
    lemma_parse_lines(ls, 0, ws);
}

} // verus!
