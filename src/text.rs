//! Styled text: runs of characters with a style, lines of runs, and blocks
//! of lines.
use vstd::prelude::*;
use crate::style::Style;

verus! {

/// A run of text in one style.
#[derive(Clone, Debug)]
pub struct Span {
    pub content: String,
    pub style: Style,
}

/// A line of styled runs.
#[derive(Clone, Debug)]
pub struct Line {
    pub spans: Vec<Span>,
}

/// One character cell: a character and its style.
#[derive(Clone, Copy, Debug, PartialEq, Eq, Structural)]
pub struct Cell {
    pub symbol: char,
    pub style: Style,
}

/// The characters of cells, in order.
pub open spec fn cells_symbols(cells: Seq<Cell>) -> Seq<char> {
    cells.map_values(|c: Cell| c.symbol)
}

/// The characters of rows of cells, row after row.
pub open spec fn rows_symbols(rows: Seq<Vec<Cell>>) -> Seq<char>
    decreases rows.len(),
{
    if rows.len() == 0 {
        Seq::empty()
    } else {
        rows_symbols(rows.drop_last()) + cells_symbols(rows.last()@)
    }
}

/// A block of lines.
#[derive(Clone, Debug)]
pub struct Text {
    pub lines: Vec<Line>,
}

/// The characters of a sequence of runs, in order.
pub open spec fn chars_of_spans(spans: Seq<Span>) -> Seq<char>
    decreases spans.len(),
{
    if spans.len() == 0 {
        Seq::empty()
    } else {
        chars_of_spans(spans.drop_last()) + spans.last().content@
    }
}

/// The characters of a line.
pub open spec fn line_chars(line: Line) -> Seq<char> {
    chars_of_spans(line.spans@)
}

/// Unicode's White_Space property.
pub open spec fn white_space(c: char) -> bool {
    let u = c as u32;
    (0x9 <= u && u <= 0xd) || u == 0x20 || u == 0x85 || u == 0xa0 || u == 0x1680 || (0x2000
        <= u && u <= 0x200a) || u == 0x2028 || u == 0x2029 || u == 0x202f || u == 0x205f || u
        == 0x3000
}

/// Whether `c` has Unicode's White_Space property.
pub fn is_whitespace(c: char) -> (r: bool)
    ensures
        r == white_space(c),
{
    let u = c as u32;
    (0x9 <= u && u <= 0xd) || u == 0x20 || u == 0x85 || u == 0xa0 || u == 0x1680 || (0x2000
        <= u && u <= 0x200a) || u == 0x2028 || u == 0x2029 || u == 0x202f || u == 0x205f || u
        == 0x3000
}

/// Relies on String::push: appends one character.
#[verifier::external_body]
pub(crate) fn push_char(s: &mut String, c: char)
    ensures
        final(s)@ == old(s)@.push(c),
{
    s.push(c)
}

/// The characters of a string, in order.
pub fn chars_of(s: &str) -> (r: Vec<char>)
    ensures
        r@ == s@,
{
    let n = s.unicode_len();
    let mut r: Vec<char> = Vec::new();
    let mut i: usize = 0;
    while i < n
        invariant
            n == s@.len(),
            i <= n,
            r@ == s@.subrange(0, i as int),
        decreases n - i,
    {
        r.push(s.get_char(i));
        i += 1;
    }
    proof {
        assert(r@ =~= s@);
    }
    r
}

/// A string holding the given characters.
pub fn string_of(v: &Vec<char>) -> (r: String)
    ensures
        r@ == v@,
{
    let mut r = String::new();
    let mut i: usize = 0;
    while i < v.len()
        invariant
            i <= v@.len(),
            r@ == v@.subrange(0, i as int),
        decreases v@.len() - i,
    {
        push_char(&mut r, v[i]);
        proof {
            assert(v@.subrange(0, i as int).push(v@[i as int]) =~= v@.subrange(0, i + 1));
        }
        i += 1;
    }
    proof {
        assert(r@ =~= v@);
    }
    r
}

impl Span {
    /// A run of `content` without style.
    pub fn raw(content: &str) -> (r: Span)
        ensures
            r.content@ == content@,
            r.style == Style::plain_spec(),
    {
        Span { content: content.to_owned(), style: Style::plain() }
    }

    /// A run of `content` in `style`.
    pub fn styled(content: String, style: Style) -> (r: Span)
        ensures
            r.content == content,
            r.style == style,
    {
        Span { content, style }
    }
}

/// Whether a character without White_Space occurs in `s`.
pub open spec fn has_non_whitespace(s: Seq<char>) -> bool {
    exists|i: int| 0 <= i < s.len() && !white_space(#[trigger] s[i])
}

} // verus!
