use rupert::code::split_lines;
use rupert::configuration::{Commands, Configuration, HeadingStyle};
use rupert::document::{Block, Document, Inline, ListDelimiter, ListKind, Node, TableRowNode};
use rupert::page::{Page, PageBreakCondition};
use rupert::section::{Section, Sections};
use rupert::style::{Color, Style};
use rupert::text::Line;
use rupert::transform::{code_text, Context, TransformError};
use rupert::widget::PageCollector;

fn config() -> Configuration {
    Configuration {
        title: "Presentation".to_string(),
        page_break: PageBreakCondition::ThematicBreak,
        commands: Commands { initialize: None },
        heading_styles: (1..=6)
            .map(|l| HeadingStyle { prefix: format!("{}> ", l), style: Style::plain().fg(Color::Red) })
            .collect(),
        default_style: Style::plain(),
    }
}

fn text(s: &str) -> Inline {
    Inline::Text { text: s.to_string() }
}

fn node(block: Block, line: usize) -> Node {
    Node { block, start_line: line }
}

fn line_text(line: &Line) -> String {
    line.spans.iter().map(|s| s.content.clone()).collect()
}

fn heading(level: u8, s: &str) -> Block {
    Block::Heading { level, children: vec![text(s)] }
}

fn para(s: &str) -> Block {
    Block::Paragraph { children: vec![text(s)] }
}

fn one_page(doc: &Document) -> Page {
    Page { nodes: (0..doc.nodes.len()).collect() }
}

#[test]
fn pages() {
    let doc = Document {
        nodes: vec![
            node(heading(1, "One"), 1),
            node(para("a"), 3),
            node(heading(2, "Sub"), 4),
            node(heading(1, "Two"), 6),
            node(para("b"), 8),
        ],
    };
    let pages = rupert::page::pages(&doc, PageBreakCondition::Heading { level: 1 });
    assert_eq!(2, pages.len());
    assert_eq!(1, doc.nodes[pages[0].nodes[0]].start_line);
    assert_eq!(6, doc.nodes[pages[1].nodes[0]].start_line);
}

#[test]
fn thematic_breaks_split_and_vanish() {
    let doc = Document {
        nodes: vec![
            node(Block::FrontMatter { text: "%%%\n%%%".to_string() }, 1),
            node(para("a"), 3),
            node(Block::ThematicBreak, 4),
            node(para("b"), 5),
            node(Block::ThematicBreak, 6),
        ],
    };
    let ps = rupert::page::pages(&doc, PageBreakCondition::ThematicBreak);
    assert_eq!(2, ps.len());
    assert_eq!(vec![1], ps[0].nodes);
    // a break with nothing after it belongs to no page either
    assert_eq!(vec![3], ps[1].nodes);
}

#[test]
fn empty_and_front_matter_only_documents_have_no_pages() {
    let empty = Document { nodes: vec![] };
    assert_eq!(0, rupert::page::pages(&empty, PageBreakCondition::ThematicBreak).len());
    let fm = Document { nodes: vec![node(Block::FrontMatter { text: String::new() }, 1)] };
    assert_eq!(0, rupert::page::pages(&fm, PageBreakCondition::Heading { level: 1 }).len());
}

#[test]
fn inline_runs_and_footnote_labels() {
    let cfg = config();
    let mut ctx = Context::new(&cfg);
    let doc = Document {
        nodes: vec![node(
            Block::Paragraph {
                children: vec![
                    Inline::Emph { children: vec![text("em")] },
                    Inline::SoftBreak,
                    Inline::FootnoteReference { name: "n".to_string() },
                    Inline::Link { url: "u".to_string(), children: vec![Inline::Strong { children: vec![text("l")] }] },
                    Inline::Code { literal: "c".to_string() },
                    Inline::LineBreak,
                    Inline::Strikethrough { children: vec![text("s")] },
                ],
            },
            1,
        )],
    };
    let sections = Sections::from_page(&mut ctx, &doc, &one_page(&doc)).unwrap();
    assert_eq!(1, sections.inner_margin);
    match &sections.sections[0] {
        Section::Paragraph { text } => {
            let spans = &text.lines[0].spans;
            let contents: Vec<&str> = spans.iter().map(|s| s.content.as_str()).collect();
            assert_eq!(vec!["em", " ", "¹", "l", " <u>", "c", "\n", "s"], contents);
            assert!(spans[0].style.italic);
            assert!(spans[3].style.bold && spans[3].style.underlined);
            assert_eq!(Some(Color::Blue), spans[3].style.fg);
            assert!(!spans[4].style.underlined);
            assert!(spans[7].style.crossed_out);
        }
        other => panic!("unexpected {:?}", other),
    }
    assert_eq!(vec![0], ctx.footnotes.extract_references());
}

#[test]
fn headings_get_their_prefix_and_style() {
    let cfg = config();
    let mut ctx = Context::new(&cfg);
    let doc = Document { nodes: vec![node(heading(5, "Five"), 1)] };
    let sections = Sections::from_page(&mut ctx, &doc, &one_page(&doc)).unwrap();
    match &sections.sections[0] {
        Section::Heading { text, level } => {
            assert_eq!(5, *level);
            assert_eq!("5> Five", line_text(text));
            assert_eq!(Some(Color::Red), text.spans[1].style.fg);
            assert_eq!(None, text.spans[0].style.fg);
        }
        other => panic!("unexpected {:?}", other),
    }
}

#[test]
fn bad_heading_level_is_an_error() {
    let cfg = config();
    let mut ctx = Context::new(&cfg);
    let doc = Document { nodes: vec![node(heading(7, "x"), 1)] };
    assert_eq!(Err(TransformError::HeadingLevel { level: 7 }), Sections::from_page(&mut ctx, &doc, &one_page(&doc)).map(|_| ()));
}

#[test]
fn unsupported_elements_are_errors() {
    let cfg = config();
    let mut ctx = Context::new(&cfg);
    let doc = Document {
        nodes: vec![node(
            Block::BlockQuote {
                children: vec![Block::Paragraph {
                    children: vec![Inline::Unsupported { kind: "Image".to_string(), line: 4 }],
                }],
            },
            3,
        )],
    };
    assert_eq!(
        Err(TransformError::Unsupported { kind: "Image".to_string(), line: 4 }),
        Sections::from_page(&mut ctx, &doc, &one_page(&doc)).map(|_| ())
    );
    let doc = Document { nodes: vec![node(Block::Unsupported { kind: "HtmlBlock".to_string(), line: 9 }, 9)] };
    assert_eq!(
        Err(TransformError::Unsupported { kind: "HtmlBlock".to_string(), line: 9 }),
        Sections::from_page(&mut ctx, &doc, &one_page(&doc)).map(|_| ())
    );
}

#[test]
fn ordered_lists_are_numbered_from_their_start() {
    let cfg = config();
    let mut ctx = Context::new(&cfg);
    let item = |kind: ListKind| Block::Item { kind, delimiter: ListDelimiter::Paren, children: vec![para("i")] };
    let doc = Document {
        nodes: vec![node(
            Block::List {
                start: 3,
                children: vec![
                    item(ListKind::Ordered),
                    item(ListKind::Ordered),
                    item(ListKind::Bullet('-')),
                    item(ListKind::Ordered),
                    item(ListKind::Ordered),
                ],
            },
            1,
        )],
    };
    let sections = Sections::from_page(&mut ctx, &doc, &one_page(&doc)).unwrap();
    match &sections.sections[0] {
        Section::List { content } => {
            assert_eq!(0, content.inner_margin);
            let ordinals: Vec<Option<usize>> = content
                .sections
                .iter()
                .map(|s| match s {
                    Section::ListItemOrdered { ordinal, delimiter, .. } => {
                        assert_eq!(')', *delimiter);
                        Some(*ordinal)
                    }
                    Section::ListItemUnordered { bullet, .. } => {
                        assert_eq!('-', *bullet);
                        None
                    }
                    _ => panic!("not an item"),
                })
                .collect();
            assert_eq!(vec![Some(3), Some(4), None, Some(5), Some(6)], ordinals);
        }
        other => panic!("unexpected {:?}", other),
    }
}

#[test]
fn renumbering_directly() {
    let item = || Section::ListItemOrdered { content: Sections { sections: vec![], inner_margin: 1 }, ordinal: 0, delimiter: '.' };
    let mut s = Sections { sections: vec![item(), Section::ThematicBreak, item()], inner_margin: 0 };
    s.list_item_reorder(usize::MAX);
    match (&s.sections[0], &s.sections[2]) {
        (Section::ListItemOrdered { ordinal: a, .. }, Section::ListItemOrdered { ordinal: b, .. }) => {
            assert_eq!(usize::MAX, *a);
            assert_eq!(usize::MAX, *b);
        }
        _ => panic!("items moved"),
    }
}

#[test]
fn code_blocks_keep_their_lines() {
    let cfg = config();
    let ctx = Context::new(&cfg);
    let literal = "fn main() {\n    let x = 1;\n}\n".to_string();
    let text = ctx.code(&"rs".to_string(), &literal);
    let lines: Vec<String> = text.lines.iter().map(line_text).collect();
    assert_eq!(vec!["fn main() {", "    let x = 1;", "}"], lines);
    // the highlighter styles the tokens
    assert!(text.lines[0].spans.iter().all(|s| s.style.fg.is_some()));
    let plain = ctx.code(&"no-such-language".to_string(), &"a\n\nb".to_string());
    let lines: Vec<String> = plain.lines.iter().map(line_text).collect();
    assert_eq!(vec!["a", "", "b"], lines);
}

#[test]
fn code_line_splitting() {
    let v: Vec<String> = split_lines("a\nb\n").iter().map(|l| l.iter().collect()).collect();
    assert_eq!(vec!["a", "b"], v);
    assert!(split_lines("").is_empty());
    let v: Vec<String> = split_lines("\n\nx").iter().map(|l| l.iter().collect()).collect();
    assert_eq!(vec!["", "", "x"], v);
}

#[test]
fn tables_footnote_definitions_and_quotes() {
    let cfg = config();
    let doc = Document {
        nodes: vec![
            node(
                Block::Table {
                    rows: vec![
                        TableRowNode { header: true, cells: vec![vec![text("h1")], vec![text("h2")]] },
                        TableRowNode { header: false, cells: vec![vec![Inline::FootnoteReference { name: "f".to_string() }], vec![text("d")]] },
                    ],
                },
                1,
            ),
            node(Block::FootnoteDefinition { name: "f".to_string(), children: vec![para("note")] }, 4),
            node(Block::BlockQuote { children: vec![para("q")] }, 6),
            node(Block::CodeBlock { info: String::new(), literal: "x".to_string() }, 7),
        ],
    };
    let pages_list = vec![one_page(&doc)];
    let collector = PageCollector::collect(&cfg, &doc, &pages_list).unwrap();
    let (ctx, widgets) = collector.finish();
    assert_eq!(1, widgets.len());
    let sections = &widgets[0].sections;
    assert_eq!(3, sections.sections.len());
    match &sections.sections[0] {
        Section::Table { rows } => {
            assert_eq!(2, rows.len());
            assert!(rows[0].header());
            assert!(!rows[1].header());
            assert_eq!("¹", line_text(&rows[1].cells()[0].lines[0]));
        }
        other => panic!("unexpected {:?}", other),
    }
    match &sections.sections[1] {
        Section::BlockQuote { content } => match &content.sections[0] {
            Section::Paragraph { text } => {
                assert!(text.lines[0].spans[0].style.dim && text.lines[0].spans[0].style.italic)
            }
            other => panic!("unexpected {:?}", other),
        },
        other => panic!("unexpected {:?}", other),
    }
    assert_eq!(vec![("¹".to_string(), 0)], widgets[0].footnotes);
    let note = ctx.footnotes.lookup(0).unwrap();
    match &note.sections[0] {
        Section::Paragraph { text } => assert!(text.lines[0].spans[0].style.dim),
        other => panic!("unexpected {:?}", other),
    }
}

#[test]
fn each_page_lists_its_own_references() {
    let cfg = config();
    let reference = |n: &str| Block::Paragraph { children: vec![Inline::FootnoteReference { name: n.to_string() }] };
    let doc = Document {
        nodes: vec![
            node(reference("b"), 1),
            node(reference("a"), 2),
            node(Block::ThematicBreak, 3),
            node(reference("a"), 4),
            node(Block::FootnoteDefinition { name: "c".to_string(), children: vec![reference("b")] }, 5),
        ],
    };
    let pages = rupert::page::pages(&doc, PageBreakCondition::ThematicBreak);
    let collector = PageCollector::collect(&cfg, &doc, &pages).unwrap();
    let lists: Vec<Vec<usize>> = collector.footnotes.into_iter().map(|f| f.into_iter().collect()).collect();
    // "b" is 0 and "a" is 1; the second page refers to "a", and to "b" from
    // inside the definition of "c".
    assert_eq!(vec![vec![0, 1], vec![0, 1]], lists);
}

#[test]
fn code_without_highlighting_is_unstyled() {
    let lines = vec!["ab".chars().collect::<Vec<char>>(), vec![]];
    let text = code_text(&lines, None);
    assert_eq!(2, text.lines.len());
    assert_eq!("ab", line_text(&text.lines[0]));
    assert_eq!(1, text.lines[1].spans.len());
    assert_eq!(Style::plain(), text.lines[0].spans[0].style);
    let red = Style::plain().fg(Color::Red);
    let highlighted = vec![
        vec![rupert::text::Span::styled("a".to_string(), red), rupert::text::Span::styled("b\n".to_string(), Style::plain())],
        vec![rupert::text::Span::styled("\n".to_string(), red)],
    ];
    let text = code_text(&lines, Some(highlighted));
    assert_eq!("ab", line_text(&text.lines[0]));
    assert_eq!(red, text.lines[0].spans[0].style);
    assert_eq!("", line_text(&text.lines[1]));
}

#[test]
fn leading_thematic_breaks_make_no_empty_page() {
    let doc = Document { nodes: vec![node(Block::ThematicBreak, 1), node(Block::ThematicBreak, 2), node(para("a"), 3)] };
    let ps = rupert::page::pages(&doc, PageBreakCondition::ThematicBreak);
    assert_eq!(1, ps.len());
    assert_eq!(vec![2], ps[0].nodes);
}

#[test]
fn first_error_in_document_order_is_reported() {
    let cfg = config();
    let mut ctx = Context::new(&cfg);
    let doc = Document {
        nodes: vec![
            node(para("ok"), 1),
            node(Block::Paragraph { children: vec![Inline::Unsupported { kind: "Image".to_string(), line: 2 }] }, 2),
            node(heading(9, "bad"), 3),
        ],
    };
    assert_eq!(
        Err(TransformError::Unsupported { kind: "Image".to_string(), line: 2 }),
        Sections::from_page(&mut ctx, &doc, &one_page(&doc)).map(|_| ())
    );
}
