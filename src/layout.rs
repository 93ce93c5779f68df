//! Vertical extents of sections, and the areas that siblings occupy.
use vstd::prelude::*;
use crate::section::{INDENT, Section, Sections, TableRow};
use crate::text::{Cell, cells_symbols, rows_symbols, Line, Text, line_chars, has_non_whitespace, white_space, chars_of, chars_of_spans};
use crate::wrap::{line_height, clamp16, height_line, run, wrap_line};

verus! {

/// Rows above and below a section, used only next to a sibling.
pub open spec fn padding_spec(s: Section) -> (nat, nat) {
    match s {
        Section::Heading { .. } => (1, 0),
        _ => (0, 0),
    }
}

/// The rows that the lines of a paragraph take, each wrapped on its own.
pub open spec fn lines_height(lines: Seq<Line>, w: nat) -> nat
    decreases lines.len(),
{
    if lines.len() == 0 {
        0
    } else {
        lines_height(lines.drop_last(), w) + line_height(line_chars(lines.last()), w, 0)
    }
}

/// Whether some line holds a character other than whitespace.
pub open spec fn text_visible(lines: Seq<Line>) -> bool {
    exists|i: int| 0 <= i < lines.len() && has_non_whitespace(line_chars(#[trigger] lines[i]))
}

/// A paragraph of whitespace alone takes no rows.
pub open spec fn paragraph_height(text: Text, w: nat) -> nat {
    if text_visible(text.lines@) {
        lines_height(text.lines@, w)
    } else {
        0
    }
}

/// The number of data rows (rows that are not headers).
pub open spec fn data_rows(rows: Seq<TableRow>) -> nat
    decreases rows.len(),
{
    if rows.len() == 0 {
        0
    } else {
        data_rows(rows.drop_last()) + if rows.last().is_header() {
            0nat
        } else {
            1nat
        }
    }
}

/// A frame, a header row if there is one, and the data rows with a blank
/// row between each two of them.
pub open spec fn table_height(rows: Seq<TableRow>) -> nat {
    if rows.len() == 0 {
        0
    } else {
        let header: nat = if exists|i: int| 0 <= i < rows.len() && (#[trigger] rows[i]).is_header() {
            1
        } else {
            0
        };
        let data = data_rows(rows);
        2 + header + if data > 0 {
            (2 * data - 1) as nat
        } else {
            0
        }
    }
}

/// The width left of `w` once a gutter of `g` columns is taken.
pub open spec fn narrowed(w: nat, g: nat) -> nat {
    if w > g {
        (w - g) as nat
    } else {
        0
    }
}

/// The rows that a section takes at width `w`. Nested content is measured
/// at the width it is drawn at: a block quote keeps a gutter of half an
/// indent, a list item one of a full indent.
pub open spec fn section_height(s: Section, w: nat) -> nat
    decreases s,
{
    match s {
        Section::BlockQuote { content } => 1 + stack_height(
            content.sections@,
            content.inner_margin as nat,
            narrowed(w, INDENT as nat / 2),
        ),
        Section::Code { text } => text.lines@.len(),
        Section::Heading { text, level } => line_height(line_chars(text), w, level as nat + 1),
        Section::List { content } => stack_height(content.sections@, content.inner_margin as nat, w),
        Section::ListItemOrdered { content, .. } => stack_height(
            content.sections@,
            content.inner_margin as nat,
            narrowed(w, INDENT as nat),
        ),
        Section::ListItemUnordered { content, .. } => stack_height(
            content.sections@,
            content.inner_margin as nat,
            narrowed(w, INDENT as nat),
        ),
        Section::Paragraph { text } => paragraph_height(text, w),
        Section::Table { rows } => table_height(rows@),
        Section::ThematicBreak => 1,
    }
}

/// A paragraph whose lines hold only whitespace takes no rows, at any
/// width.
pub proof fn lemma_whitespace_paragraph_is_empty(text: Text, w: nat)
    requires
        forall|i: int| 0 <= i < text.lines@.len() ==> !has_non_whitespace(line_chars(#[trigger] text.lines@[i])),
    ensures
        section_height(Section::Paragraph { text }, w) == 0,
{
}

/// The rows that siblings take: each one's own rows, and between each two
/// the bottom padding of the upper, the margin and the top padding of the
/// lower.
pub open spec fn stack_height(secs: Seq<Section>, margin: nat, w: nat) -> nat
    decreases secs,
{
    if secs.len() == 0 {
        0
    } else {
        let gap: nat = if secs.len() > 1 {
            padding_spec(secs[secs.len() - 2]).1 + margin + padding_spec(secs.last()).0
        } else {
            0
        };
        stack_height(secs.drop_last(), margin, w) + gap + section_height(secs.last(), w)
    }
}

/// The rows that section `i` of a sibling sequence is given: its own rows,
/// its top padding unless it is first, and its bottom padding and the
/// margin unless it is last.
pub open spec fn part_height(secs: Seq<Section>, margin: nat, i: int, w: nat) -> nat {
    section_height(secs[i], w) + (if i > 0 {
        padding_spec(secs[i]).0
    } else {
        0
    }) + (if i + 1 < secs.len() {
        padding_spec(secs[i]).1 + margin
    } else {
        0
    })
}

proof fn lemma_clamp_add(a: int, b: int)
    requires
        a >= 0,
        b >= 0,
    ensures
        clamp16(clamp16(a) + clamp16(b)) == clamp16(a + b),
        clamp16(clamp16(a) + b) == clamp16(a + b),
{
}

proof fn lemma_stack_push(secs: Seq<Section>, i: int, margin: nat, w: nat)
    requires
        0 <= i < secs.len(),
    ensures
        stack_height(secs.subrange(0, i + 1), margin, w) == stack_height(secs.subrange(0, i), margin, w)
            + (if i > 0 {
            padding_spec(secs[i - 1]).1 + margin + padding_spec(secs[i]).0
        } else {
            0
        }) + section_height(secs[i], w),
{
    let p = secs.subrange(0, i + 1);
    assert(p.drop_last() =~= secs.subrange(0, i));
    assert(p.last() == secs[i]);
    if i > 0 {
        assert(p[p.len() - 2] == secs[i - 1]);
    }
}

/// Whether a line holds a character other than whitespace.
pub fn contains_non_whitespace(line: &Line) -> (r: bool)
    ensures
        r == has_non_whitespace(line_chars(*line)),
{
    let ghost all = line_chars(*line);
    let mut j: usize = 0;
    while j < line.spans.len()
        invariant
            j <= line.spans@.len(),
            all == line_chars(*line),
            !has_non_whitespace(chars_of_spans(line.spans@.subrange(0, j as int))),
        decreases line.spans@.len() - j,
    {
        let cs = chars_of(line.spans[j].content.as_str());
        let ghost before = chars_of_spans(line.spans@.subrange(0, j as int));
        proof {
            assert(line.spans@.subrange(0, j + 1).drop_last() =~= line.spans@.subrange(0, j as int));
        }
        let mut k: usize = 0;
        while k < cs.len()
            invariant
                k <= cs@.len(),
                j < line.spans@.len(),
                cs@ == line.spans@[j as int].content@,
                before == chars_of_spans(line.spans@.subrange(0, j as int)),
                !has_non_whitespace(before),
                forall|t: int| 0 <= t < k ==> white_space(#[trigger] cs@[t]),
                all == line_chars(*line),
            decreases cs@.len() - k,
        {
            if !crate::text::is_whitespace(cs[k]) {
                proof {
                    lemma_chars_prefix(line.spans@, j as int);
                    let t = before.len() + k;
                    assert(all[t] == cs@[k as int]);
                }
                return true;
            }
            k += 1;
        }
        proof {
            let after = chars_of_spans(line.spans@.subrange(0, j + 1));
            assert(after =~= before + cs@);
            assert forall|t: int| 0 <= t < after.len() implies white_space(#[trigger] after[t]) by {
                if t >= before.len() {
                    assert(after[t] == cs@[t - before.len()]);
                } else {
                    assert(after[t] == before[t]);
                }
            }
        }
        j += 1;
    }
    proof {
        assert(line.spans@.subrange(0, j as int) =~= line.spans@);
    }
    false
}

/// The characters of the first `j + 1` runs are a prefix of those of all.
proof fn lemma_chars_prefix(spans: Seq<crate::text::Span>, j: int)
    requires
        0 <= j < spans.len(),
    ensures
        chars_of_spans(spans.subrange(0, j)).len() + spans[j].content@.len() <= chars_of_spans(spans).len(),
        forall|t: int|
            0 <= t < spans[j].content@.len() ==> chars_of_spans(spans)[chars_of_spans(spans.subrange(0, j)).len() + t]
                == #[trigger] spans[j].content@[t],
    decreases spans.len(),
{
    if j + 1 == spans.len() {
        assert(spans.drop_last() =~= spans.subrange(0, j));
    } else {
        lemma_chars_prefix(spans.drop_last(), j);
        assert(spans.drop_last().subrange(0, j) =~= spans.subrange(0, j));
    }
}

/// The rows of a paragraph at `width`; none where it holds only
/// whitespace.
pub fn height_paragraph(width: u16, text: &Text) -> (r: u16)
    ensures
        r as int == clamp16(paragraph_height(*text, width as nat) as int),
{
    let n = text.lines.len();
    let mut visible = false;
    let mut i: usize = 0;
    while i < n
        invariant
            n == text.lines@.len(),
            i <= n,
            visible == exists|t: int| 0 <= t < i && has_non_whitespace(line_chars(#[trigger] text.lines@[t])),
        decreases n - i,
    {
        if contains_non_whitespace(&text.lines[i]) {
            visible = true;
        }
        i += 1;
    }
    if !visible {
        return 0;
    }
    let mut total: u16 = 0;
    let mut i: usize = 0;
    while i < n
        invariant
            n == text.lines@.len(),
            i <= n,
            total as int == clamp16(lines_height(text.lines@.subrange(0, i as int), width as nat) as int),
        decreases n - i,
    {
        let h = height_line(width, 0, text.lines[i].spans.as_slice());
        proof {
            let p = text.lines@.subrange(0, i + 1);
            assert(p.drop_last() =~= text.lines@.subrange(0, i as int));
            lemma_clamp_add(
                lines_height(text.lines@.subrange(0, i as int), width as nat) as int,
                line_height(line_chars(text.lines@[i as int]), width as nat, 0) as int,
            );
        }
        total = total.saturating_add(h);
        i += 1;
    }
    proof {
        assert(text.lines@.subrange(0, n as int) =~= text.lines@);
    }
    total
}

/// The rows of a table: a frame, a header row if there is one, and the
/// data rows with a blank row between each two. A table with a header and
/// no data rows takes its frame and its header alone.
pub fn height_table(rows: &Vec<TableRow>) -> (r: u16)
    ensures
        r as int == clamp16(table_height(rows@) as int),
{
    let n = rows.len();
    if n == 0 {
        return 0;
    }
    let mut header: u16 = 0;
    let mut data: usize = 0;
    let mut i: usize = 0;
    while i < n
        invariant
            n == rows@.len(),
            i <= n,
            data == data_rows(rows@.subrange(0, i as int)),
            data <= i,
            header == (if exists|t: int| 0 <= t < i && (#[trigger] rows@[t]).is_header() {
                1int
            } else {
                0int
            }),
        decreases n - i,
    {
        proof {
            assert(rows@.subrange(0, i + 1).drop_last() =~= rows@.subrange(0, i as int));
        }
        if rows[i].header() {
            header = 1;
        } else {
            data = data + 1;
        }
        i += 1;
    }
    proof {
        assert(rows@.subrange(0, n as int) =~= rows@);
    }
    let body: u16 = if data == 0 {
        0
    } else if data >= 32768 {
        u16::MAX
    } else {
        (2 * data - 1) as u16
    };
    (2 + header).saturating_add(body)
}

impl Section {
    /// The rows above and below this section, used only next to a sibling.
    pub fn padding(&self) -> (r: (u16, u16))
        ensures
            r.0 as nat == padding_spec(*self).0,
            r.1 as nat == padding_spec(*self).1,
    {
        match self {
            Section::Heading { .. } => (1, 0),
            _ => (0, 0),
        }
    }

    /// The rows that this section takes at `width`, clamped to the range of
    /// `u16`.
    pub fn height(&self, width: u16) -> (r: u16)
        ensures
            r as int == clamp16(section_height(*self, width as nat) as int),
        decreases self,
    {
        match self {
            Section::BlockQuote { content } => {
                let h = content.height(width.saturating_sub(INDENT / 2));
                proof {
                    lemma_clamp_add(
                        1,
                        stack_height(content.sections@, content.inner_margin as nat, narrowed(width as nat, INDENT as nat / 2)) as int,
                    );
                }
                1u16.saturating_add(h)
            },
            Section::Code { text } => {
                if text.lines.len() > u16::MAX as usize {
                    u16::MAX
                } else {
                    text.lines.len() as u16
                }
            },
            Section::Heading { text, level } => height_line(width, *level as u16 + 1, text.spans.as_slice()),
            Section::List { content } => content.height(width),
            Section::ListItemOrdered { content, .. } => content.height(width.saturating_sub(INDENT)),
            Section::ListItemUnordered { content, .. } => content.height(width.saturating_sub(INDENT)),
            Section::Paragraph { text } => height_paragraph(width, text),
            Section::Table { rows } => height_table(rows),
            Section::ThematicBreak => 1,
        }
    }
}

impl Sections {
    /// The rows that these siblings take at `width`, clamped to the range of
    /// `u16`.
    pub fn height(&self, width: u16) -> (r: u16)
        ensures
            r as int == clamp16(stack_height(self.sections@, self.inner_margin as nat, width as nat) as int),
        decreases self,
    {
        let ghost secs = self.sections@;
        let ghost m = self.inner_margin as nat;
        let ghost w = width as nat;
        let n = self.sections.len();
        let mut total: u16 = 0;
        let mut i: usize = 0;
        while i < n
            invariant
                n == secs.len(),
                secs == self.sections@,
                m == self.inner_margin as nat,
                w == width as nat,
                i <= n,
                total as int == clamp16(stack_height(secs.subrange(0, i as int), m, w) as int),
            decreases n - i,
        {
            proof {
                assert(decreases_to!(self => self.sections));
                assert(decreases_to!(self.sections => self.sections@[i as int]));
            }
            let s = &self.sections[i];
            let h = s.height(width);
            let mut gap: u16 = 0;
            if i > 0 {
                gap = self.sections[i - 1].padding().1.saturating_add(self.inner_margin).saturating_add(s.padding().0);
            }
            proof {
                lemma_stack_push(secs, i as int, m, w);
                let g: int = if i > 0 {
                    (padding_spec(secs[i - 1]).1 + m + padding_spec(secs[i as int]).0) as int
                } else {
                    0
                };
                assert(gap as int == clamp16(g));
                let a = stack_height(secs.subrange(0, i as int), m, w) as int;
                let b = section_height(secs[i as int], w) as int;
                lemma_clamp_add(a, g);
                lemma_clamp_add(a + g, b);
            }
            total = total.saturating_add(gap).saturating_add(h);
            i += 1;
        }
        proof {
            assert(secs.subrange(0, n as int) =~= secs);
        }
        total
    }

    /// The rows that section `i` is given among its siblings at `width`,
    /// clamped to the range of `u16`.
    pub fn height_of(&self, i: usize, width: u16) -> (r: u16)
        requires
            i < self.sections@.len(),
        ensures
            r as int == clamp16(part_height(self.sections@, self.inner_margin as nat, i as int, width as nat) as int),
    {
        let s = &self.sections[i];
        let pad = s.padding();
        let h = s.height(width);
        let top: u16 = if i > 0 {
            pad.0
        } else {
            0
        };
        let bottom: u16 = if i < self.sections.len() - 1 {
            pad.1.saturating_add(self.inner_margin)
        } else {
            0
        };
        proof {
            let secs = self.sections@;
            let hh = section_height(secs[i as int], width as nat) as int;
            let t: int = if i > 0 { padding_spec(secs[i as int]).0 as int } else { 0 };
            let b: int = if i + 1 < secs.len() { (padding_spec(secs[i as int]).1 + self.inner_margin) as int } else { 0 };
            lemma_clamp_add(hh, t);
            lemma_clamp_add(hh + t, b);
        }
        h.saturating_add(top).saturating_add(bottom)
    }
}

/// The characters of lines, one line after the other.
pub open spec fn text_chars(lines: Seq<Line>) -> Seq<char>
    decreases lines.len(),
{
    if lines.len() == 0 {
        Seq::empty()
    } else {
        text_chars(lines.drop_last()) + line_chars(lines.last())
    }
}

/// The characters that a paragraph shows: none where it holds only
/// whitespace.
pub open spec fn paragraph_chars(text: Text) -> Seq<char> {
    if text_visible(text.lines@) {
        text_chars(text.lines@)
    } else {
        Seq::empty()
    }
}

proof fn lemma_rows_symbols_append(a: Seq<Vec<Cell>>, b: Seq<Vec<Cell>>)
    ensures
        rows_symbols(a + b) == rows_symbols(a) + rows_symbols(b),
    decreases b.len(),
{
    if b.len() == 0 {
        assert(a + b =~= a);
        assert(rows_symbols(a) + Seq::<char>::empty() =~= rows_symbols(a));
    } else {
        lemma_rows_symbols_append(a, b.drop_last());
        assert((a + b).drop_last() =~= a + b.drop_last());
        assert((a + b).last() == b.last());
        assert(rows_symbols(a) + rows_symbols(b.drop_last()) + cells_symbols(b.last()@) =~= rows_symbols(a) + (
        rows_symbols(b.drop_last()) + cells_symbols(b.last()@)));
    }
}

proof fn lemma_lines_height_prefix(lines: Seq<Line>, k: int, w: nat)
    requires
        0 <= k < lines.len(),
    ensures
        lines_height(lines.subrange(0, k + 1), w) <= lines_height(lines, w),
    decreases lines.len(),
{
    if k + 1 < lines.len() {
        lemma_lines_height_prefix(lines.drop_last(), k, w);
        assert(lines.drop_last().subrange(0, k + 1) =~= lines.subrange(0, k + 1));
    } else {
        assert(lines.subrange(0, k + 1) =~= lines);
    }
}

/// The rows that a paragraph is drawn in at `width`: its lines wrapped one
/// after the other, as many rows as `height_paragraph` counts, holding the
/// paragraph's characters in order; none where it holds only whitespace.
pub fn wrap_paragraph(width: u16, text: &Text) -> (r: Vec<Vec<Cell>>)
    ensures
        r@.len() == clamp16(paragraph_height(*text, width as nat) as int),
        paragraph_height(*text, width as nat) < u16::MAX ==> rows_symbols(r@) == paragraph_chars(*text),
{
    let mut rows: Vec<Vec<Cell>> = Vec::new();
    let ghost w = width as nat;
    if height_paragraph(width, text) == 0 {
        proof {
            if text_visible(text.lines@) {
                assert(paragraph_height(*text, w) == 0);
                lemma_zero_height_no_text(text.lines@, w);
            }
        }
        return rows;
    }
    let ghost total = lines_height(text.lines@, w);
    let n = text.lines.len();
    let mut i: usize = 0;
    proof {
        assert(text.lines@.subrange(0, 0) =~= Seq::<Line>::empty());
    }
    while i < n
        invariant
            n == text.lines@.len(),
            i <= n,
            w == width as nat,
            total == lines_height(text.lines@, w),
            rows@.len() == clamp16(lines_height(text.lines@.subrange(0, i as int), w) as int),
            total < u16::MAX ==> rows_symbols(rows@) == text_chars(text.lines@.subrange(0, i as int)),
        decreases n - i,
    {
        let mut part = wrap_line(width, 0, text.lines[i].spans.as_slice());
        let ghost before = rows@;
        proof {
            let p = text.lines@.subrange(0, i + 1);
            assert(p.drop_last() =~= text.lines@.subrange(0, i as int));
            lemma_clamp_add(
                lines_height(text.lines@.subrange(0, i as int), w) as int,
                line_height(line_chars(text.lines@[i as int]), w, 0) as int,
            );
            lemma_lines_height_prefix(text.lines@, i as int, w);
        }
        if rows.len() + part.len() > u16::MAX as usize {
            part.truncate(u16::MAX as usize - rows.len());
        } else {
            proof {
                if total < u16::MAX {
                    lemma_rows_symbols_append(before, part@);
                }
            }
        }
        rows.append(&mut part);
        i += 1;
    }
    proof {
        assert(text.lines@.subrange(0, n as int) =~= text.lines@);
    }
    rows
}

proof fn lemma_zero_height_no_text(lines: Seq<Line>, w: nat)
    requires
        lines_height(lines, w) == 0,
    ensures
        lines.len() == 0,
    decreases lines.len(),
{
    if lines.len() > 0 {
        let c = line_chars(lines.last());
        assert(run(c, w, 0).height >= 1) by {
            crate::wrap::lemma_height_positive(c, w, 0);
        }
    }
}

} // verus!
