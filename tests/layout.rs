use rupert::area::{block_quote_areas, list_item_areas, Rect};
use rupert::render::Draw;
use rupert::layout::{height_paragraph, height_table};
use rupert::section::{Section, Sections, TableRow};
use rupert::style::Style;
use rupert::text::{Line, Span, Text};


fn line(parts: &[&str]) -> Line {
    Line { spans: parts.iter().map(|p| Span::raw(p)).collect() }
}

fn paragraph(lines: &[&[&str]]) -> Section {
    Section::Paragraph { text: Text { lines: lines.iter().map(|l| line(l)).collect() } }
}

#[test]
fn height_line() {
    assert_eq!(1, rupert::wrap::height_line(10, 0, &[Span::raw("one")]));
    assert_eq!(2, rupert::wrap::height_line(10, 0, &[Span::raw("one two three")]));
    assert_eq!(2, rupert::wrap::height_line(10, 0, &[Span::raw("one two"), Span::raw(" three")]));
    assert_eq!(
        5,
        rupert::wrap::height_line(10, 0, &[Span::raw("a long wooooooooooooooooooooooooooooooooooord")])
    );
}

#[test]
fn height_line_examples_of_the_laws() {
    assert_eq!(2, rupert::wrap::height_line(10, 0, &[Span::raw("one two three")]));
    assert_eq!(5, rupert::wrap::height_line(10, 0, &[Span::raw("a long wooooooooooooooooooooooooooooooooooord")]));
}

#[test]
fn height_line_empty_is_one_row() {
    assert_eq!(1, rupert::wrap::height_line(10, 0, &[]));
    assert_eq!(1, rupert::wrap::height_line(10, 3, &[Span::raw("")]));
}

#[test]
fn height_line_indent_counts() {
    // "abc" at column 8 of a 10-column row: the word moves to the next row.
    assert_eq!(2, rupert::wrap::height_line(10, 8, &[Span::raw("abc")]));
    assert_eq!(1, rupert::wrap::height_line(10, 0, &[Span::raw("abc")]));
}

#[test]
fn height_line_zero_width() {
    assert_eq!(4, rupert::wrap::height_line(0, 0, &[Span::raw("abc")]));
}

#[test]
fn whitespace_paragraph_takes_no_rows() {
    let p = paragraph(&[&["   ", "\t"], &[" "]]);
    assert_eq!(0, p.height(20));
    if let Section::Paragraph { text } = &p {
        assert_eq!(0, height_paragraph(20, text));
    }
    let sections = Sections { sections: vec![p], inner_margin: 1 };
    let rects = sections.layout(Rect::new(0, 0, 20, 10));
    assert_eq!(0, rects[0].height);
}

#[test]
fn paragraph_sums_its_lines() {
    let p = paragraph(&[&["one two three"], &["one"]]);
    assert_eq!(3, p.height(10));
}

#[test]
fn table_height_formula() {
    let mut header = TableRow::new(true);
    header.push(Text { lines: vec![line(&["h"])] });
    let data = || {
        let mut r = TableRow::new(false);
        r.push(Text { lines: vec![line(&["d"])] });
        r
    };
    assert_eq!(0, height_table(&vec![]));
    // frame 2, header 1, three data rows with blank rows between: 5
    assert_eq!(8, height_table(&vec![header, data(), data(), data()]));
    // frame 2, two data rows with a blank row between: 3
    assert_eq!(5, height_table(&vec![data(), data()]));
    // a header alone: its frame and its row
    let mut only = TableRow::new(true);
    only.push(Text { lines: vec![line(&["h"])] });
    assert_eq!(3, height_table(&vec![only]));
}

#[test]
fn heading_padding_and_inner_margin() {
    let heading = Section::Heading { text: line(&["Title"]), level: 1 };
    assert_eq!((1, 0), heading.padding());
    assert_eq!((0, 0), Section::ThematicBreak.padding());
    let sections = Sections {
        sections: vec![paragraph(&[&["a"]]), Section::Heading { text: line(&["T"]), level: 1 }, Section::ThematicBreak],
        inner_margin: 1,
    };
    // 1 + (0 + 1 + 1) + 1 + (0 + 1 + 0) + 1
    assert_eq!(6, sections.height(20));
    assert_eq!(2, sections.height_of(0, 20));
    assert_eq!(3, sections.height_of(1, 20));
    assert_eq!(1, sections.height_of(2, 20));
}

#[test]
fn layout_fills_exactly_the_height() {
    let sections = Sections {
        sections: vec![
            paragraph(&[&["one two three"]]),
            Section::Heading { text: line(&["T"]), level: 2 },
            Section::ThematicBreak,
        ],
        inner_margin: 1,
    };
    let h = sections.height(10);
    assert_eq!(7, h);
    let rects = sections.layout(Rect::new(2, 3, 10, 100));
    assert_eq!(Rect::new(2, 3, 10, 2), rects[0]);
    assert_eq!(Rect::new(2, 7, 10, 1), rects[1]);
    assert_eq!(Rect::new(2, 9, 10, 1), rects[2]);
    assert_eq!(3 + h, rects[2].y + rects[2].height);
}

#[test]
fn layout_clips_to_a_short_area() {
    let sections = Sections {
        sections: vec![paragraph(&[&["a"], &["b"], &["c"]]), Section::ThematicBreak],
        inner_margin: 1,
    };
    let rects = sections.layout(Rect::new(0, 0, 10, 2));
    assert_eq!(Rect::new(0, 0, 10, 2), rects[0]);
    assert_eq!(Rect::new(0, 2, 10, 0), rects[1]);
}

#[test]
fn nested_content_is_measured_at_its_drawn_width() {
    let quote = Section::BlockQuote {
        content: Sections { sections: vec![paragraph(&[&["aaaa bbbb"]])], inner_margin: 1 },
    };
    // the mark row, and the paragraph at width 10 - 2
    assert_eq!(3, quote.height(10));
    let item = Section::ListItemUnordered {
        content: Sections { sections: vec![paragraph(&[&["aaaa bbbb"]])], inner_margin: 1 },
        bullet: '-',
    };
    assert_eq!(2, item.height(10));
    assert_eq!(1, item.height(14));
}

#[test]
fn code_height_is_its_line_count() {
    let code = Section::Code { text: Text { lines: vec![line(&["fn main() { let a_very_long_line = 1; }"]), line(&[""])] } };
    assert_eq!(2, code.height(5));
}

#[test]
fn gutters() {
    let (mark, content) = block_quote_areas(Rect::new(1, 1, 10, 5));
    assert_eq!(Rect::new(1, 1, 10, 1), mark);
    assert_eq!(Rect::new(3, 2, 8, 4), content);
    let (marker, content) = list_item_areas(Rect::new(0, 0, 10, 3));
    assert_eq!(Rect::new(0, 0, 4, 3), marker);
    assert_eq!(Rect::new(4, 0, 6, 3), content);
    let (marker, content) = list_item_areas(Rect::new(0, 0, 2, 3));
    assert_eq!(Rect::new(0, 0, 2, 3), marker);
    assert_eq!(Rect::new(2, 0, 0, 3), content);
}

#[test]
fn styled_spans_keep_their_style() {
    let s = Span::styled("x".to_string(), Style::plain().add_modifier(rupert::style::Modifier::Bold));
    assert!(s.style.bold);
    assert!(!s.style.italic);
}

fn row_text(row: &[rupert::text::Cell]) -> String {
    row.iter().map(|c| c.symbol).collect()
}

#[test]
fn wrapped_rows_match_the_measure() {
    let spans = [Span::raw("one two three")];
    let rows = rupert::wrap::wrap_line(10, 0, &spans);
    assert_eq!(rupert::wrap::height_line(10, 0, &spans) as usize, rows.len());
    assert_eq!(vec!["one two ", "three"], rows.iter().map(|r| row_text(r)).collect::<Vec<_>>());
    let long = [Span::raw("a long wooooooooooooooooooooooooooooooooooord")];
    let rows = rupert::wrap::wrap_line(10, 0, &long);
    assert_eq!(5, rows.len());
    let joined: String = rows.iter().map(|r| row_text(r)).collect();
    assert_eq!("a long wooooooooooooooooooooooooooooooooooord", joined);
}

#[test]
fn wrapped_rows_keep_styles() {
    let bold = Style::plain().add_modifier(rupert::style::Modifier::Bold);
    let spans = [Span::raw("ab "), Span::styled("cd".to_string(), bold)];
    let rows = rupert::wrap::wrap_line(20, 0, &spans);
    assert_eq!(1, rows.len());
    assert!(!rows[0][0].style.bold);
    assert!(rows[0][3].style.bold);
}

#[test]
fn wrapped_paragraph_rows() {
    if let Section::Paragraph { text } = paragraph(&[&["one two three"], &["x"]]) {
        let rows = rupert::layout::wrap_paragraph(10, &text);
        assert_eq!(3, rows.len());
        assert_eq!("x", row_text(&rows[2]));
    }
    if let Section::Paragraph { text } = paragraph(&[&["  "]]) {
        assert!(rupert::layout::wrap_paragraph(10, &text).is_empty());
    }
}

#[test]
fn footnote_region_below_content() {
    assert_eq!(Some(Rect::new(0, 7, 10, 3)), rupert::area::footnote_area(Rect::new(0, 2, 10, 8), 5));
    assert_eq!(None, rupert::area::footnote_area(Rect::new(0, 2, 10, 5), 5));
}

#[test]
fn footnote_panel_is_bottom_aligned_or_absent() {
    let mut f = rupert::footnotes::Footnotes::new();
    let note = Sections { sections: vec![paragraph(&[&["note"]])], inner_margin: 1 };
    f.definition("a", note);
    let entries = vec![("¹".to_string(), 0usize)];
    let panel = rupert::widget::footnote_panel(&f, &entries, Rect::new(0, 10, 20, 5));
    assert_eq!(1, panel.len());
    assert_eq!(Rect::new(0, 14, 2, 1), panel[0].0);
    assert_eq!(Rect::new(2, 14, 18, 1), panel[0].1);
    let tall = Sections { sections: vec![paragraph(&[&["a"], &["b"], &["c"]])], inner_margin: 1 };
    f.definition("b", tall);
    let entries = vec![("¹".to_string(), 0usize), ("²".to_string(), 1usize)];
    assert!(rupert::widget::footnote_panel(&f, &entries, Rect::new(0, 0, 20, 3)).is_empty());
    assert_eq!(2, rupert::widget::footnote_panel(&f, &entries, Rect::new(0, 0, 20, 4)).len());
}

#[test]
fn rendering_places_markers_and_rows() {
    let item = Section::ListItemOrdered {
        content: Sections { sections: vec![paragraph(&[&["one two three"]])], inner_margin: 1 },
        ordinal: 12,
        delimiter: ')',
    };
    let list = Sections { sections: vec![item], inner_margin: 0 };
    let draws = list.render(Rect::new(0, 0, 14, 10));
    assert_eq!(2, draws.len());
    match &draws[0] {
        Draw::Label { area, text } => {
            assert_eq!("12)", text);
            assert_eq!(Rect::new(0, 0, 4, 2), *area);
        }
        _ => panic!("expected the marker first"),
    }
    match &draws[1] {
        Draw::Rows { area, indent, rows } => {
            assert_eq!(Rect::new(4, 0, 10, 2), *area);
            assert_eq!(0, *indent);
            assert_eq!(2, rows.len());
        }
        _ => panic!("expected the item's rows"),
    }
    let quote = Section::BlockQuote { content: Sections { sections: vec![Section::ThematicBreak], inner_margin: 1 } };
    let draws = quote.render(Rect::new(0, 0, 10, 2));
    match (&draws[0], &draws[1]) {
        (Draw::Label { area, text }, Draw::Rule { area: rule }) => {
            assert_eq!("❠", text);
            assert_eq!(Rect::new(0, 0, 10, 1), *area);
            assert_eq!(Rect::new(2, 1, 8, 1), *rule);
        }
        _ => panic!("unexpected drawing"),
    }
    let heading = Section::Heading { text: line(&["Title"]), level: 3 };
    match &heading.render(Rect::new(0, 0, 20, 1))[0] {
        Draw::Label { text, .. } => assert_eq!("### ", text),
        _ => panic!("expected the heading marker"),
    }
}
