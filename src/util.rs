use vstd::prelude::*;
use vstd::string::StringSliceAdditionalSpecFns;

verus! {

/// Offsets just past each `\n` byte of `b`, in order.
pub open spec fn newline_ends(b: Seq<u8>) -> Seq<usize>
    decreases b.len(),
{
    if b.len() == 0 {
        Seq::empty()
    } else if b.last() == 10u8 {
        newline_ends(b.drop_last()).push(b.len() as usize)
    } else {
        newline_ends(b.drop_last())
    }
}

/// Byte offset of every line start: offset 0, then one past each `\n`.
pub open spec fn line_starts(b: Seq<u8>) -> Seq<usize> {
    seq![0usize] + newline_ends(b)
}

/// Byte offsets at which the lines of `input` start; a `\r` before a `\n`
/// belongs to the line it ends.
pub fn get_line_starts(input: &str) -> (r: Vec<usize>)
    ensures
        r@ == line_starts(input.spec_bytes()),
{
    let b = input.as_bytes();
    let mut res: Vec<usize> = Vec::new();
    res.push(0);
    let n = b.len();
    for i in 0..n
        invariant
            n == b@.len(),
            res@ == line_starts(b@.take(i as int)),
    {
        assert(b@.take(i + 1).drop_last() =~= b@.take(i as int));
        if b[i] == 10u8 {
            res.push(i + 1);
        }
        assert(res@ =~= line_starts(b@.take(i + 1)));
    }
    assert(b@.take(n as int) =~= b@);
    res
}


/// The text of `s` with a trailing `\r` removed, if it has one.
pub open spec fn strip_cr(s: Seq<char>) -> Seq<char> {
    if s.len() > 0 && s.last() == '\r' {
        s.drop_last()
    } else {
        s
    }
}

/// Scanning `s` left to right: the lines finished by a `\n` so far, and the
/// text of the line still open.
pub open spec fn scan_lines(s: Seq<char>) -> (Seq<Seq<char>>, Seq<char>)
    decreases s.len(),
{
    if s.len() == 0 {
        (Seq::empty(), Seq::empty())
    } else {
        let (done, cur) = scan_lines(s.drop_last());
        if s.last() == '\n' {
            (done.push(strip_cr(cur)), Seq::empty())
        } else {
            (done, cur.push(s.last()))
        }
    }
}

/// The lines of `s`: split at each `\n`, a `\r` just before it dropped, and
/// no empty last line after a final `\n`.
pub open spec fn lines_of(s: Seq<char>) -> Seq<Seq<char>> {
    let (done, cur) = scan_lines(s);
    if cur.len() == 0 {
        done
    } else {
        done.push(cur)
    }
}

/// Whether `l` can stand as a line: no `\n` in it and no `\r` at its end.
pub open spec fn clean_line(l: Seq<char>) -> bool {
    &&& forall|i: int| 0 <= i < l.len() ==> l[i] != '\n'
    &&& (l.len() == 0 || l.last() != '\r')
}

/// Each line followed by a `\n`.
pub open spec fn terminated(ls: Seq<Seq<char>>) -> Seq<char>
    decreases ls.len(),
{
    if ls.len() == 0 {
        Seq::empty()
    } else {
        terminated(ls.drop_last()) + ls.last() + seq!['\n']
    }
}

/// Text without `\n` extends the line still open.
pub proof fn lemma_scan_extend(p: Seq<char>, q: Seq<char>)
    requires
        forall|i: int| 0 <= i < q.len() ==> q[i] != '\n',
    ensures
        scan_lines(p + q) == (scan_lines(p).0, scan_lines(p).1 + q),
    decreases q.len(),
{
    if q.len() == 0 {
        assert(p + q =~= p);
        assert(scan_lines(p).1 + q =~= scan_lines(p).1);
    } else {
        lemma_scan_extend(p, q.drop_last());
        assert((p + q).drop_last() =~= p + q.drop_last());
        assert((p + q).last() == q.last());
        assert(scan_lines(p).1 + q =~= (scan_lines(p).1 + q.drop_last()).push(q.last()));
    }
}

/// The lines of terminated clean lines are those lines.
pub proof fn lemma_lines_of_terminated(ls: Seq<Seq<char>>)
    requires
        forall|i: int| 0 <= i < ls.len() ==> clean_line(#[trigger] ls[i]),
    ensures
        scan_lines(terminated(ls)) == (ls, Seq::<char>::empty()),
        lines_of(terminated(ls)) == ls,
    decreases ls.len(),
{
    if ls.len() > 0 {
        let front = ls.drop_last();
        assert forall|i: int| 0 <= i < front.len() implies clean_line(#[trigger] front[i]) by {
            assert(front[i] == ls[i]);
        }
        lemma_lines_of_terminated(front);
        let t = terminated(front);
        let l = ls.last();
        assert(clean_line(ls[ls.len() - 1]));
        lemma_scan_extend(t, l);
        assert(Seq::<char>::empty() + l =~= l);
        let whole = t + l + seq!['\n'];
        assert(whole.drop_last() =~= t + l);
        assert(strip_cr(l) == l);
        assert(front.push(l) =~= ls);
    }
}

/// Terminating two runs of lines is terminating each in turn.
pub proof fn lemma_terminated_concat(a: Seq<Seq<char>>, b: Seq<Seq<char>>)
    ensures
        terminated(a + b) == terminated(a) + terminated(b),
    decreases b.len(),
{
    if b.len() == 0 {
        assert(a + b =~= a);
        assert(terminated(a) + terminated(b) =~= terminated(a));
    } else {
        lemma_terminated_concat(a, b.drop_last());
        assert((a + b).drop_last() =~= a + b.drop_last());
        assert(terminated(a + b) =~= terminated(a) + terminated(b));
    }
}

/// The parts written one after another with `sep` between neighbours.
pub open spec fn join(parts: Seq<Seq<char>>, sep: Seq<char>) -> Seq<char>
    decreases parts.len(),
{
    if parts.len() == 0 {
        Seq::empty()
    } else if parts.len() == 1 {
        parts[0]
    } else {
        join(parts.drop_last(), sep) + sep + parts.last()
    }
}

/// The unit of whitespace that `indent` puts before a line.
pub open spec fn indent_unit() -> Seq<char> {
    seq![' ', ' ', ' ', ' ']
}

/// Each line with the indentation unit before it.
pub open spec fn indented(lines: Seq<Seq<char>>) -> Seq<Seq<char>> {
    lines.map_values(|l: Seq<char>| indent_unit() + l)
}

/// The views of a sequence of strings.
pub open spec fn texts(v: Seq<String>) -> Seq<Seq<char>> {
    v.map_values(|t: String| t@)
}

/// Relies on String::push: appends one character at the end.
#[verifier::external_body]
pub(crate) fn push_char(s: &mut String, c: char)
    ensures
        final(s)@ == old(s)@.push(c),
{
    s.push(c)
}

/// Appends the characters of `t` to `out`.
pub(crate) fn push_text(out: &mut String, t: &str)
    ensures
        final(out)@ == old(out)@ + t@,
{
    let ghost start = out@;
    for c in it: t.chars()
        invariant
            it.seq() == t@,
            out@ == start + t@.take(it.index()),
    {
        push_char(out, c);
        assert(out@ =~= start + t@.take(it.index() + 1));
    }
    assert(t@.take(t@.len() as int) =~= t@);
}


/// The first `n` characters of `v` as a string.
fn string_of(v: &Vec<char>, n: usize) -> (r: String)
    requires
        n <= v@.len(),
    ensures
        r@ == v@.take(n as int),
{
    let mut r = String::new();
    for i in 0..n
        invariant
            n <= v@.len(),
            r@ == v@.take(i as int),
    {
        push_char(&mut r, v[i]);
        assert(r@ =~= v@.take(i + 1));
    }
    r
}

/// Splits `text` into its lines (see `lines_of`).
pub fn split_lines(text: &str) -> (r: Vec<String>)
    ensures
        texts(r@) == lines_of(text@),
{
    let mut done: Vec<String> = Vec::new();
    let mut cur: Vec<char> = Vec::new();
    for c in it: text.chars()
        invariant
            it.seq() == text@,
            (texts(done@), cur@) == scan_lines(text@.take(it.index())),
    {
        let ghost pre = text@.take(it.index());
        assert(text@.take(it.index() + 1).drop_last() =~= pre);
        if c == '\n' {
            let n = cur.len();
            let keep = if n > 0 && cur[n - 1] == '\r' { n - 1 } else { n };
            let line = string_of(&cur, keep);
            assert(line@ == strip_cr(cur@));
            let ghost before = done@;
            done.push(line);
            cur = Vec::new();
            assert(texts(done@) =~= texts(before).push(line@));
        } else {
            cur.push(c);
        }
        assert((texts(done@), cur@) == scan_lines(text@.take(it.index() + 1)));
    }
    assert(text@.take(text@.len() as int) =~= text@);
    if cur.len() > 0 {
        let n = cur.len();
        let line = string_of(&cur, n);
        assert(cur@.take(n as int) =~= cur@);
        let ghost before = done@;
        done.push(line);
        assert(texts(done@) =~= texts(before).push(line@));
    }
    done
}


/// The strings of `parts`, with `sep` between neighbours.
pub fn join_strings(parts: &Vec<String>, sep: &str) -> (r: String)
    ensures
        r@ == join(texts(parts@), sep@),
{
    let mut out = String::new();
    let n = parts.len();
    for i in 0..n
        invariant
            n == parts@.len(),
            out@ == join(texts(parts@).take(i as int), sep@),
    {
        let ghost done = texts(parts@).take(i as int);
        assert(texts(parts@).take(i + 1).drop_last() =~= done);
        if i > 0 {
            push_text(&mut out, sep);
        }
        push_text(&mut out, parts[i].as_str());
        assert(out@ =~= join(texts(parts@).take(i + 1), sep@));
    }
    assert(texts(parts@).take(n as int) =~= texts(parts@));
    out
}

/// A list of items shown with a separator between neighbours.
pub struct Punctuated<'a>(pub Vec<String>, pub &'a str);

impl<'a> Punctuated<'a> {
    /// The items in order, separated by the separator.
    pub fn render(&self) -> (r: String)
        ensures
            r@ == join(texts(self.0@), self.1@),
    {
        join_strings(&self.0, self.1)
    }
}

/// Every line of `code` prefixed with four spaces, the lines joined by `\n`.
pub fn indent(code: &str) -> (r: String)
    ensures
        r@ == join(indented(lines_of(code@)), seq!['\n']),
{
    let lines = split_lines(code);
    let ghost ls = indented(texts(lines@));
    let mut out = String::new();
    let n = lines.len();
    for i in 0..n
        invariant
            n == lines@.len(),
            ls == indented(texts(lines@)),
            out@ == join(ls.take(i as int), seq!['\n']),
    {
        assert(ls.take(i + 1).drop_last() =~= ls.take(i as int));
        if i > 0 {
            push_char(&mut out, '\n');
        }
        let ghost before = out@;
        push_char(&mut out, ' ');
        push_char(&mut out, ' ');
        push_char(&mut out, ' ');
        push_char(&mut out, ' ');
        push_text(&mut out, lines[i].as_str());
        assert(ls[i as int] =~= indent_unit() + lines@[i as int]@);
        assert(out@ =~= before + ls[i as int]);
        assert(out@ =~= join(ls.take(i + 1), seq!['\n']));
    }
    assert(ls.take(n as int) =~= ls);
    out
}


/// The characters of `t`, in order.
pub fn chars_of(t: &str) -> (v: Vec<char>)
    ensures
        v@ == t@,
{
    let mut v: Vec<char> = Vec::new();
    for c in it: t.chars()
        invariant
            it.seq() == t@,
            v@ == t@.take(it.index()),
    {
        v.push(c);
        assert(v@ =~= t@.take(it.index() + 1));
    }
    assert(t@.take(t@.len() as int) =~= t@);
    v
}

/// The characters `v[from..to]` as a string.
pub fn string_between(v: &Vec<char>, from: usize, to: usize) -> (r: String)
    requires
        from <= to <= v@.len(),
    ensures
        r@ == v@.subrange(from as int, to as int),
{
    let mut r = String::new();
    for i in from..to
        invariant
            to <= v@.len(),
            r@ == v@.subrange(from as int, i as int),
    {
        push_char(&mut r, v[i]);
        assert(r@ =~= v@.subrange(from as int, i + 1));
    }
    r
}

} // verus!
