//! What drawing a section puts where: a list of drawing operations, each
//! confined to a rectangle of the area the section was given.
use vstd::prelude::*;
use crate::area::{Rect, block_quote_areas, list_item_areas};
use crate::area::rect_at;
use crate::layout::{paragraph_chars, paragraph_height, wrap_paragraph};
use crate::section::{Section, Sections, TableRow};
use crate::text::{Cell, Text, line_chars, push_char, rows_symbols, string_of};
use crate::wrap::{clamp16, line_height, wrap_line};

verus! {

/// One drawing operation.
pub enum Draw<'a> {
    /// Wrapped rows from the top of `area`, the first from column `indent`.
    Rows { area: Rect, indent: u16, rows: Vec<Vec<Cell>> },
    /// A label at the top left of `area`.
    Label { area: Rect, text: String },
    /// Lines drawn as they are, without wrapping.
    Lines { area: Rect, text: &'a Text },
    /// A framed table with one shared column width, the header underlined.
    Table { area: Rect, rows: &'a Vec<TableRow> },
    /// A horizontal rule along the top of `area`.
    Rule { area: Rect },
}

impl<'a> Draw<'a> {
    /// The rectangle the operation draws in.
    pub open spec fn area(&self) -> Rect {
        match *self {
            Draw::Rows { area, .. } => area,
            Draw::Label { area, .. } => area,
            Draw::Lines { area, .. } => area,
            Draw::Table { area, .. } => area,
            Draw::Rule { area } => area,
        }
    }
}

/// The decimal numeral of `n`.
pub open spec fn decimal(n: nat) -> Seq<char>
    decreases n,
{
    if n < 10 {
        seq![digit(n)]
    } else {
        decimal(n / 10).push(digit(n % 10))
    }
}

/// The character of decimal digit `d`.
pub open spec fn digit(d: nat) -> char {
    ((d + 48) as u8) as char
}

fn push_decimal(n: usize, out: &mut String)
    ensures
        final(out)@ == old(out)@ + decimal(n as nat),
    decreases n,
{
    if n < 10 {
        push_char(out, ((n as u8) + 48) as char);
        assert(old(out)@.push(digit(n as nat)) =~= old(out)@ + decimal(n as nat));
    } else {
        push_decimal(n / 10, out);
        push_char(out, (((n % 10) as u8) + 48) as char);
        assert(old(out)@ + decimal((n / 10) as nat) + seq![digit((n % 10) as nat)] =~= old(out)@ + decimal(n as nat));
    }
}

/// The marker of an ordered list item: its ordinal and delimiter.
pub fn ordinal_label(ordinal: usize, delimiter: char) -> (r: String)
    ensures
        r@ == decimal(ordinal as nat).push(delimiter),
{
    let mut s = String::new();
    push_decimal(ordinal, &mut s);
    push_char(&mut s, delimiter);
    proof {
        assert(Seq::<char>::empty() + decimal(ordinal as nat) =~= decimal(ordinal as nat));
    }
    s
}

/// The marker of a heading of `level`: as many `#` and a space.
pub open spec fn heading_marker(level: nat) -> Seq<char>
    decreases level,
{
    if level == 0 {
        seq![' ']
    } else {
        seq!['#'] + heading_marker((level - 1) as nat)
    }
}

fn heading_label(level: u8) -> (r: String)
    ensures
        r@ == heading_marker(level as nat),
{
    let mut s = String::new();
    let mut i: u8 = 0;
    while i < level
        invariant
            i <= level,
            s@ == Seq::new(i as nat, |k: int| '#'),
        decreases level - i,
    {
        push_char(&mut s, '#');
        proof {
            assert(s@ =~= Seq::new((i + 1) as nat, |k: int| '#'));
        }
        i += 1;
    }
    push_char(&mut s, ' ');
    proof {
        lemma_heading_marker(level as nat);
    }
    s
}

proof fn lemma_heading_marker(level: nat)
    ensures
        heading_marker(level) == Seq::new(level, |k: int| '#').push(' '),
    decreases level,
{
    if level > 0 {
        lemma_heading_marker((level - 1) as nat);
        assert(seq!['#'] + Seq::new((level - 1) as nat, |k: int| '#').push(' ') =~= Seq::new(level, |k: int| '#').push(' '));
    } else {
        assert(Seq::new(0, |k: int| '#').push(' ') =~= seq![' ']);
    }
}

/// Whether every operation draws within `area`.
pub open spec fn within(area: Rect, draws: Seq<Draw>) -> bool {
    forall|i: int| 0 <= i < draws.len() ==> area.holds(#[trigger] draws[i].area())
}

/// How many drawing operations a section yields.
pub open spec fn draw_count(s: Section) -> nat
    decreases s,
{
    match s {
        Section::BlockQuote { content } => 1 + stack_count(content.sections@),
        Section::Heading { .. } => 2,
        Section::List { content } => stack_count(content.sections@),
        Section::ListItemOrdered { content, .. } => 1 + stack_count(content.sections@),
        Section::ListItemUnordered { content, .. } => 1 + stack_count(content.sections@),
        _ => 1,
    }
}

pub open spec fn stack_count(secs: Seq<Section>) -> nat
    decreases secs,
{
    if secs.len() == 0 {
        0
    } else {
        stack_count(secs.drop_last()) + draw_count(secs.last())
    }
}

/// Whether `rows` are the rows of lines with characters `chars` whose
/// height is `h`: as many as `h` counts (within `u16`), holding the
/// characters in order.
pub open spec fn rows_hold(rows: Seq<Vec<Cell>>, h: nat, chars: Seq<char>) -> bool {
    &&& rows.len() == clamp16(h as int)
    &&& h < u16::MAX ==> rows_symbols(rows) == chars
}

/// Whether `d` are the drawing operations of section `s` in `area`.
pub open spec fn section_draws(s: Section, area: Rect, d: Seq<Draw>) -> bool
    decreases s, 0nat,
{
    &&& d.len() == draw_count(s)
    &&& match s {
        Section::Paragraph { text } => match d[0] {
            Draw::Rows { area: a, indent, rows } => a == area && indent == 0 && rows_hold(
                rows@,
                paragraph_height(text, area.width as nat),
                paragraph_chars(text),
            ),
            _ => false,
        },
        Section::Heading { text, level } => match (d[0], d[1]) {
            (Draw::Label { area: a, text: marker }, Draw::Rows { area: b, indent, rows }) => a == area && b == area
                && marker@ == heading_marker(level as nat) && indent == level as u16 + 1 && rows_hold(
                rows@,
                line_height(line_chars(text), area.width as nat, level as nat + 1),
                line_chars(text),
            ),
            _ => false,
        },
        Section::Code { text } => d[0] == Draw::Lines { area, text: &text },
        Section::Table { rows } => d[0] == Draw::Table { area, rows: &rows },
        Section::ThematicBreak => d[0] == Draw::Rule { area },
        Section::BlockQuote { content } => d[0] == (Draw::Label { area: block_quote_areas_spec(area).0, text: d[0]->Label_text })
            && d[0]->Label_text@ == seq!['❠'] && stack_draws(
            content.sections@,
            content.inner_margin as nat,
            block_quote_areas_spec(area).1,
            content.sections@.len() as int,
            d.subrange(1, d.len() as int),
        ),
        Section::List { content } => stack_draws(
            content.sections@,
            content.inner_margin as nat,
            area,
            content.sections@.len() as int,
            d,
        ),
        Section::ListItemOrdered { content, ordinal, delimiter } => d[0] == (Draw::Label {
            area: list_item_areas_spec(area).0,
            text: d[0]->Label_text,
        }) && d[0]->Label_text@ == decimal(ordinal as nat).push(delimiter) && stack_draws(
            content.sections@,
            content.inner_margin as nat,
            list_item_areas_spec(area).1,
            content.sections@.len() as int,
            d.subrange(1, d.len() as int),
        ),
        Section::ListItemUnordered { content, .. } => d[0] == (Draw::Label {
            area: list_item_areas_spec(area).0,
            text: d[0]->Label_text,
        }) && d[0]->Label_text@ == seq!['•'] && stack_draws(
            content.sections@,
            content.inner_margin as nat,
            list_item_areas_spec(area).1,
            content.sections@.len() as int,
            d.subrange(1, d.len() as int),
        ),
    }
}

/// Whether `d` are, in order, the drawing operations of the first `n` of
/// the siblings `secs` in `area`, each section in the rectangle that the
/// layout gives it.
pub open spec fn stack_draws(secs: Seq<Section>, margin: nat, area: Rect, n: int, d: Seq<Draw>) -> bool
    decreases secs, n,
{
    if n <= 0 || n > secs.len() {
        n == 0 && d.len() == 0
    } else {
        let k = d.len() - draw_count(secs[n - 1]);
        &&& k >= 0
        &&& stack_draws(secs, margin, area, n - 1, d.subrange(0, k))
        &&& section_draws(secs[n - 1], rect_at(secs, margin, area, n - 1), d.subrange(k, d.len() as int))
    }
}

impl Section {
    /// The drawing operations of this section in `area`: nested sections
    /// are drawn in the areas left of their gutters and below a quote's
    /// mark, paragraphs and headings in the rows that measuring them
    /// counts.
    #[verifier::spinoff_prover]
    pub fn render<'s>(&'s self, area: Rect) -> (r: Vec<Draw<'s>>)
        requires
            area.wf(),
        ensures
            within(area, r@),
            section_draws(*self, area, r@),
        decreases self,
    {
        match self {
            Section::BlockQuote { content } => {
                let (mark, inner) = block_quote_areas(area);
                let label = String::from_str("❠");
                proof {
                    reveal_strlit("❠");
                }
                let mut out = vec![Draw::Label { area: mark, text: label }];
                let rest = content.render(inner);
                let ghost rs = rest@;
                append_within(&mut out, rest, area, inner);
                proof {
                    assert(out@.subrange(1, out@.len() as int) =~= rs);
                    assert("❠"@ =~= seq!['❠']);
                }
                out
            },
            Section::Code { text } => vec![Draw::Lines { area, text }],
            Section::Heading { text, level } => {
                let marker = heading_label(*level);
                let rows = wrap_line(area.width, *level as u16 + 1, text.spans.as_slice());
                vec![Draw::Label { area, text: marker }, Draw::Rows { area, indent: *level as u16 + 1, rows }]
            },
            Section::List { content } => content.render(area),
            Section::ListItemOrdered { content, ordinal, delimiter } => {
                let (marker, inner) = list_item_areas(area);
                let mut out = vec![Draw::Label { area: marker, text: ordinal_label(*ordinal, *delimiter) }];
                let rest = content.render(inner);
                let ghost rs = rest@;
                append_within(&mut out, rest, area, inner);
                proof {
                    assert(out@.subrange(1, out@.len() as int) =~= rs);
                }
                out
            },
            Section::ListItemUnordered { content, .. } => {
                let (marker, inner) = list_item_areas(area);
                let label = String::from_str("•");
                proof {
                    reveal_strlit("•");
                }
                let mut out = vec![Draw::Label { area: marker, text: label }];
                let rest = content.render(inner);
                let ghost rs = rest@;
                append_within(&mut out, rest, area, inner);
                proof {
                    assert(out@.subrange(1, out@.len() as int) =~= rs);
                    assert("•"@ =~= seq!['•']);
                }
                out
            },
            Section::Paragraph { text } => vec![Draw::Rows { area, indent: 0, rows: wrap_paragraph(area.width, text) }],
            Section::Table { rows } => vec![Draw::Table { area, rows }],
            Section::ThematicBreak => vec![Draw::Rule { area }],
        }
    }
}

/// The rectangles of a block quote's mark and content.
pub open spec fn block_quote_areas_spec(area: Rect) -> (Rect, Rect) {
    let g: u16 = if area.width > 2 { 2 } else { area.width };
    let h: u16 = if area.height > 0 { 1 } else { 0 };
    (
        Rect { x: area.x, y: area.y, width: area.width, height: h },
        Rect { x: (area.x + g) as u16, y: (area.y + h) as u16, width: (area.width - g) as u16, height: (area.height - h) as u16 },
    )
}

/// The rectangles of a list item's marker and content.
pub open spec fn list_item_areas_spec(area: Rect) -> (Rect, Rect) {
    let g: u16 = if area.width > 4 { 4 } else { area.width };
    (
        Rect { x: area.x, y: area.y, width: g, height: area.height },
        Rect { x: (area.x + g) as u16, y: area.y, width: (area.width - g) as u16, height: area.height },
    )
}

/// Appends the operations `rest`, drawn within `inner`, which lies within
/// `area`.
fn append_within<'s>(out: &mut Vec<Draw<'s>>, rest: Vec<Draw<'s>>, area: Rect, inner: Rect)
    requires
        within(area, old(out)@),
        within(inner, rest@),
        area.holds(inner),
    ensures
        within(area, final(out)@),
        final(out)@ == old(out)@ + rest@,
{
    let mut rest = rest;
    let ghost o = out@;
    let ghost rs = rest@;
    out.append(&mut rest);
    proof {
        assert forall|i: int| 0 <= i < out@.len() implies area.holds(#[trigger] out@[i].area()) by {
            if i >= o.len() {
                assert(out@[i] == rs[i - o.len()]);
            } else {
                assert(out@[i] == o[i]);
            }
        }
    }
}

impl Sections {
    /// The drawing operations of the sections in `area`, each section in
    /// the rectangle that `layout` gives it.
    #[verifier::spinoff_prover]
    pub fn render<'s>(&'s self, area: Rect) -> (r: Vec<Draw<'s>>)
        requires
            area.wf(),
        ensures
            within(area, r@),
            stack_draws(self.sections@, self.inner_margin as nat, area, self.sections@.len() as int, r@),
            r@.len() == stack_count(self.sections@),
        decreases self,
    {
        let rects = self.layout(area);
        let mut out: Vec<Draw<'s>> = Vec::new();
        let mut i: usize = 0;
        proof {
            assert(self.sections@.subrange(0, 0) =~= Seq::<Section>::empty());
        }
        while i < self.sections.len()
            invariant
                rects@.len() == self.sections@.len(),
                forall|k: int| 0 <= k < rects@.len() ==> area.holds(#[trigger] rects@[k]),
                forall|k: int| 0 <= k < rects@.len() ==> #[trigger] rects@[k] == rect_at(self.sections@, self.inner_margin as nat, area, k),
                area.wf(),
                i <= self.sections@.len(),
                within(area, out@),
                stack_draws(self.sections@, self.inner_margin as nat, area, i as int, out@),
                out@.len() == stack_count(self.sections@.subrange(0, i as int)),
            decreases self.sections@.len() - i,
        {
            proof {
                assert(decreases_to!(self => self.sections));
                assert(decreases_to!(self.sections => self.sections@[i as int]));
                assert(area.holds(rects@[i as int]));
            }
            let ghost before = out@;
            let part = self.sections[i].render(rects[i]);
            let ghost p = part@;
            append_within(&mut out, part, area, rects[i]);
            proof {
                let k = out@.len() - draw_count(self.sections@[i as int]);
                assert(out@.subrange(0, k) =~= before);
                assert(out@.subrange(k, out@.len() as int) =~= p);
                assert(self.sections@.subrange(0, i + 1).drop_last() =~= self.sections@.subrange(0, i as int));
            }
            i += 1;
        }
        proof {
            assert(self.sections@.subrange(0, i as int) =~= self.sections@);
        }
        out
    }
}

} // verus!
