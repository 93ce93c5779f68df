//! The section tree: styled block elements ready for layout.
use vstd::prelude::*;
use crate::text::{Line, Text};

verus! {

/// A sequence of sibling sections and the rows inserted between them.
#[derive(Debug)]
pub struct Sections {
    pub sections: Vec<Section>,
    /// Extra rows after each section but the last.
    pub inner_margin: u16,
}

/// A row of a table.
#[derive(Clone, Debug)]
pub struct TableRow {
    header: bool,
    cells: Vec<Text>,
}

/// One block element.
#[derive(Debug)]
#[allow(inconsistent_fields)]
pub enum Section {
    BlockQuote { content: Sections },
    Code { text: Text },
    Heading { text: Line, level: u8 },
    List { content: Sections },
    ListItemOrdered { content: Sections, ordinal: usize, delimiter: char },
    ListItemUnordered { content: Sections, bullet: char },
    Paragraph { text: Text },
    Table { rows: Vec<TableRow> },
    ThematicBreak,
}

/// Columns reserved for a list item's marker; a block quote reserves half.
pub const INDENT: u16 = 4;

impl TableRow {
    pub closed spec fn is_header(&self) -> bool {
        self.header
    }

    pub closed spec fn cells_spec(&self) -> Seq<Text> {
        self.cells@
    }

    /// A row without cells.
    pub fn new(header: bool) -> (r: TableRow)
        ensures
            r.is_header() == header,
            r.cells_spec().len() == 0,
    {
        TableRow { header, cells: Vec::new() }
    }

    /// Whether this is the header row.
    pub fn header(&self) -> (r: bool)
        ensures
            r == self.is_header(),
    {
        self.header
    }

    /// The cells of this row.
    pub fn cells(&self) -> (r: &Vec<Text>)
        ensures
            r@ == self.cells_spec(),
    {
        &self.cells
    }

    /// Appends a cell.
    pub fn push(&mut self, cell: Text)
        ensures
            final(self).is_header() == old(self).is_header(),
            final(self).cells_spec() == old(self).cells_spec().push(cell),
    {
        self.cells.push(cell)
    }
}

/// The number of ordered list items among the first `n` sections.
pub open spec fn ordered_before(secs: Seq<Section>, n: int) -> nat
    decreases n,
{
    if n <= 0 {
        0
    } else {
        ordered_before(secs, n - 1) + if secs[n - 1] is ListItemOrdered {
            1nat
        } else {
            0nat
        }
    }
}

proof fn lemma_ordered_before_bound(secs: Seq<Section>, n: int)
    requires
        0 <= n,
    ensures
        ordered_before(secs, n) <= n,
    decreases n,
{
    if n > 0 {
        lemma_ordered_before_bound(secs, n - 1);
    }
}

/// `n` as a `usize`, or the largest `usize` where it does not fit.
pub open spec fn saturate(n: int) -> usize {
    if n > usize::MAX as int {
        usize::MAX
    } else {
        n as usize
    }
}

/// `after` is `before` with ordered list items numbered from `start`, in
/// order, skipping the other sections, which stay as they were.
pub open spec fn renumbered(before: Seq<Section>, after: Seq<Section>, start: int) -> bool {
    &&& after.len() == before.len()
    &&& forall|i: int|
        0 <= i < before.len() ==> match #[trigger] before[i] {
            Section::ListItemOrdered { content, ordinal: _, delimiter } => after[i]
                == (Section::ListItemOrdered {
                content,
                ordinal: saturate(start + ordered_before(before, i)),
                delimiter,
            }),
            _ => after[i] == before[i],
        }
}

impl Sections {
    /// Sections separated by one row each.
    pub fn from_vec(sections: Vec<Section>) -> (r: Sections)
        ensures
            r.sections == sections,
            r.inner_margin == 1,
    {
        Sections { sections, inner_margin: 1 }
    }

    /// The number of sections.
    pub fn len(&self) -> (r: usize)
        ensures
            r == self.sections@.len(),
    {
        self.sections.len()
    }

    /// Numbers the ordered list items from `start_at`, in order, skipping
    /// the other sections.
    pub fn list_item_reorder(&mut self, start_at: usize)
        ensures
            final(self).inner_margin == old(self).inner_margin,
            renumbered(old(self).sections@, final(self).sections@, start_at as int),
    {
        let ghost before = self.sections@;
        let n = self.sections.len();
        let mut count: usize = 0;
        let mut i: usize = 0;
        while i < n
            invariant
                n == before.len(),
                self.sections@.len() == n,
                i <= n,
                count == ordered_before(before, i as int),
                self.inner_margin == old(self).inner_margin,
                forall|k: int| i <= k < n ==> self.sections@[k] == before[k],
                forall|k: int|
                    0 <= k < i ==> match #[trigger] before[k] {
                        Section::ListItemOrdered { content, ordinal: _, delimiter } => self.sections@[k]
                            == (Section::ListItemOrdered {
                            content,
                            ordinal: saturate(start_at + ordered_before(before, k)),
                            delimiter,
                        }),
                        _ => self.sections@[k] == before[k],
                    },
            decreases n - i,
        {
            proof {
                lemma_ordered_before_bound(before, i as int);
            }
            match &mut self.sections[i] {
                Section::ListItemOrdered { ordinal, .. } => {
                    *ordinal = start_at.saturating_add(count);
                    count = count + 1;
                },
                _ => {},
            }
            i += 1;
        }
    }
}

} // verus!
