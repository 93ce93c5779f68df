//! The document tree that the library reads: the block and inline elements
//! of a parsed markdown document, as plain values.
use vstd::prelude::*;

verus! {

/// How the items of an ordered list delimit their ordinal.
#[derive(Clone, Copy, Debug, PartialEq, Eq, Structural)]
pub enum ListDelimiter {
    Period,
    Paren,
}

/// Whether a list is numbered, or bulleted with the given character.
#[derive(Clone, Copy, Debug, PartialEq, Eq, Structural)]
pub enum ListKind {
    Ordered,
    Bullet(char),
}

/// A row of a table: whether it is the header, and its cells' inlines.
#[derive(Debug)]
pub struct TableRowNode {
    pub header: bool,
    pub cells: Vec<Vec<Inline>>,
}

/// A block element.
#[derive(Debug)]
pub enum Block {
    BlockQuote { children: Vec<Block> },
    CodeBlock { info: String, literal: String },
    FrontMatter { text: String },
    FootnoteDefinition { name: String, children: Vec<Block> },
    Heading { level: u8, children: Vec<Inline> },
    Item { kind: ListKind, delimiter: ListDelimiter, children: Vec<Block> },
    List { start: usize, children: Vec<Block> },
    Paragraph { children: Vec<Inline> },
    Table { rows: Vec<TableRowNode> },
    ThematicBreak,
    /// An element that the presentation cannot show: its kind and line.
    Unsupported { kind: String, line: usize },
}

/// An inline element.
#[derive(Debug)]
pub enum Inline {
    Code { literal: String },
    Emph { children: Vec<Inline> },
    FootnoteReference { name: String },
    LineBreak,
    Link { url: String, children: Vec<Inline> },
    SoftBreak,
    Strong { children: Vec<Inline> },
    Strikethrough { children: Vec<Inline> },
    Text { text: String },
    /// An element that the presentation cannot show: its kind and line.
    Unsupported { kind: String, line: usize },
}

/// A top-level element and the line where it starts.
#[derive(Debug)]
pub struct Node {
    pub block: Block,
    pub start_line: usize,
}

/// A parsed document: its top-level elements in order.
#[derive(Debug)]
pub struct Document {
    pub nodes: Vec<Node>,
}

} // verus!
