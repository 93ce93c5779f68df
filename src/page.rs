//! Splitting a document's top-level elements into pages.
use vstd::prelude::*;
use crate::document::{Block, Document, Node};

verus! {

/// Where a new page begins.
#[derive(Clone, Copy, Debug, PartialEq, Eq, Structural)]
pub enum PageBreakCondition {
    /// At a thematic break, which belongs to neither page.
    ThematicBreak,
    /// At a heading of this level, which opens the new page.
    Heading { level: u32 },
}

/// A page: indices of the document's top-level elements, in order.
#[derive(Clone, Debug)]
pub struct Page {
    pub nodes: Vec<usize>,
}

/// Whether element `j` matches the break condition.
pub open spec fn is_break(nodes: Seq<Node>, cond: PageBreakCondition, j: int) -> bool {
    match cond {
        PageBreakCondition::ThematicBreak => nodes[j].block is ThematicBreak,
        PageBreakCondition::Heading { level } => match nodes[j].block {
            Block::Heading { level: l, .. } => l as u32 == level,
            _ => false,
        },
    }
}

/// Where the page after a break at `j` begins.
pub open spec fn resume(cond: PageBreakCondition, j: int) -> int {
    match cond {
        PageBreakCondition::ThematicBreak => j + 1,
        PageBreakCondition::Heading { .. } => j,
    }
}

/// The pages of `nodes` from element `i` on, given the pages `done` so far
/// and the elements `cur` of the page being filled. Front matter is passed
/// over. A thematic break that is the condition ends the page being filled
/// and belongs to no page; a heading that is the condition ends the page
/// being filled and opens the next one.
pub open spec fn split_from(
    nodes: Seq<Node>,
    cond: PageBreakCondition,
    i: int,
    cur: Seq<usize>,
    done: Seq<Seq<usize>>,
) -> Seq<Seq<usize>>
    decreases nodes.len() - i, cur.len(),
{
    if i >= nodes.len() || i < 0 {
        if cur.len() > 0 {
            done.push(cur)
        } else {
            done
        }
    } else if nodes[i].block is FrontMatter {
        split_from(nodes, cond, i + 1, cur, done)
    } else if is_break(nodes, cond, i) && (cur.len() > 0 || cond is ThematicBreak) {
        split_from(
            nodes,
            cond,
            resume(cond, i),
            Seq::empty(),
            if cur.len() > 0 {
                done.push(cur)
            } else {
                done
            },
        )
    } else {
        split_from(nodes, cond, i + 1, cur.push(i as usize), done)
    }
}

/// The pages of a whole document.
pub open spec fn pages_spec(nodes: Seq<Node>, cond: PageBreakCondition) -> Seq<Seq<usize>> {
    split_from(nodes, cond, 0, Seq::empty(), Seq::empty())
}

impl Page {
    /// The indices of the page's elements in the document, in order.
    pub fn nodes(&self) -> (r: &Vec<usize>)
        ensures
            r == &self.nodes,
    {
        &self.nodes
    }
}

impl PageBreakCondition {
    /// Whether element `j` of `nodes`, following an element of the current
    /// page, ends it.
    pub fn try_break(&self, nodes: &Vec<Node>, j: usize) -> (r: bool)
        requires
            j < nodes@.len(),
        ensures
            r == is_break(nodes@, *self, j as int),
    {
        match self {
            PageBreakCondition::ThematicBreak => match nodes[j].block {
                Block::ThematicBreak => true,
                _ => false,
            },
            PageBreakCondition::Heading { level } => match nodes[j].block {
                Block::Heading { level: l, .. } => l as u32 == *level,
                _ => false,
            },
        }
    }
}

/// The pages of `document` under `cond`: front matter is passed over, and a
/// page ends before each break; no page is empty.
pub fn pages(document: &Document, cond: PageBreakCondition) -> (r: Vec<Page>)
    ensures
        r@.len() == pages_spec(document.nodes@, cond).len(),
        forall|k: int| 0 <= k < r@.len() ==> (#[trigger] r@[k]).nodes@ == pages_spec(document.nodes@, cond)[k],
{
    let nodes = &document.nodes;
    let n = nodes.len();
    let mut out: Vec<Page> = Vec::new();
    let mut cur: Vec<usize> = Vec::new();
    let mut i: usize = 0;
    proof {
        assert(out@.map_values(|p: Page| p.nodes@) =~= Seq::<Seq<usize>>::empty());
    }
    while i < n
        invariant
            n == nodes@.len(),
            i <= n,
            split_from(nodes@, cond, i as int, cur@, out@.map_values(|p: Page| p.nodes@))
                == pages_spec(nodes@, cond),
        decreases n - i, cur@.len(),
    {
        if let Block::FrontMatter { .. } = nodes[i].block {
            i += 1;
        } else if cond.try_break(nodes, i) && (cur.len() > 0 || cond == PageBreakCondition::ThematicBreak) {
            if cur.len() > 0 {
                let ghost before = out@;
                let page = Page { nodes: cur };
                out.push(page);
                proof {
                    assert(out@.map_values(|p: Page| p.nodes@) =~= before.map_values(|p: Page| p.nodes@).push(page.nodes@));
                }
            }
            cur = Vec::new();
            match cond {
                PageBreakCondition::ThematicBreak => i += 1,
                PageBreakCondition::Heading { .. } => {},
            }
        } else {
            cur.push(i);
            i += 1;
        }
    }
    if cur.len() > 0 {
        let ghost before = out@;
        let page = Page { nodes: cur };
        out.push(page);
        proof {
            assert(out@.map_values(|p: Page| p.nodes@) =~= before.map_values(|p: Page| p.nodes@).push(page.nodes@));
        }
    }
    proof {
        let v = out@.map_values(|p: Page| p.nodes@);
        assert forall|k: int| 0 <= k < out@.len() implies (#[trigger] out@[k]).nodes@ == pages_spec(nodes@, cond)[k] by {
            assert(v[k] == out@[k].nodes@);
        }
    }
    out
}

/// With no break from `i` on, the page being filled becomes the last page.
proof fn lemma_no_more_breaks(
    nodes: Seq<Node>,
    cond: PageBreakCondition,
    i: int,
    cur: Seq<usize>,
    done: Seq<Seq<usize>>,
)
    requires
        cur.len() > 0,
        0 <= i,
        forall|j: int| i <= j < nodes.len() ==> !is_break(nodes, cond, j),
    ensures
        split_from(nodes, cond, i, cur, done).len() == done.len() + 1,
        forall|k: int| 0 <= k < done.len() ==> split_from(nodes, cond, i, cur, done)[k] == done[k],
        split_from(nodes, cond, i, cur, done)[done.len() as int].len() > 0,
        split_from(nodes, cond, i, cur, done)[done.len() as int][0] == cur[0],
    decreases nodes.len() - i,
{
    if i < nodes.len() {
        if nodes[i].block is FrontMatter {
            lemma_no_more_breaks(nodes, cond, i + 1, cur, done);
        } else {
            lemma_no_more_breaks(nodes, cond, i + 1, cur.push(i as usize), done);
        }
    }
}

/// Without a break in `[i, h)`, filling goes on up to `h` in one page.
proof fn lemma_fill_until(
    nodes: Seq<Node>,
    cond: PageBreakCondition,
    i: int,
    h: int,
    cur: Seq<usize>,
    done: Seq<Seq<usize>>,
) -> (cur2: Seq<usize>)
    requires
        cur.len() > 0,
        0 <= i <= h < nodes.len(),
        forall|j: int| i <= j < h ==> !is_break(nodes, cond, j),
    ensures
        split_from(nodes, cond, i, cur, done) == split_from(nodes, cond, h, cur2, done),
        cur2.len() > 0,
        cur2[0] == cur[0],
    decreases h - i,
{
    if i == h {
        cur
    } else if nodes[i].block is FrontMatter {
        lemma_fill_until(nodes, cond, i + 1, h, cur, done)
    } else {
        lemma_fill_until(nodes, cond, i + 1, h, cur.push(i as usize), done)
    }
}

/// Front matter before the first other element is passed over.
proof fn lemma_skip_front(nodes: Seq<Node>, cond: PageBreakCondition, i: int, f: int)
    requires
        0 <= i <= f < nodes.len(),
        forall|j: int| 0 <= j < f ==> (#[trigger] nodes[j]).block is FrontMatter,
    ensures
        split_from(nodes, cond, i, Seq::empty(), Seq::empty()) == split_from(nodes, cond, f, Seq::empty(), Seq::empty()),
    decreases f - i,
{
    if i < f {
        assert(nodes[i].block is FrontMatter);
        lemma_skip_front(nodes, cond, i + 1, f);
    }
}

/// Splitting at headings of one level a document whose first element other
/// than front matter is such a heading, and which holds exactly one more,
/// gives two pages: the first begins at the opening heading and the second
/// at the other one.
pub proof fn lemma_two_headings_two_pages(nodes: Seq<Node>, level: u32, f: int, h: int)
    requires
        0 <= f < h < nodes.len() <= usize::MAX,
        forall|j: int| 0 <= j < f ==> (#[trigger] nodes[j]).block is FrontMatter,
        is_break(nodes, PageBreakCondition::Heading { level }, f),
        is_break(nodes, PageBreakCondition::Heading { level }, h),
        forall|j: int|
            f < j < nodes.len() && j != h ==> !is_break(nodes, PageBreakCondition::Heading { level }, j),
    ensures
        pages_spec(nodes, PageBreakCondition::Heading { level }).len() == 2,
        pages_spec(nodes, PageBreakCondition::Heading { level })[0][0] == f,
        pages_spec(nodes, PageBreakCondition::Heading { level })[1][0] == h,
{
    let cond = PageBreakCondition::Heading { level };
    let empty = Seq::<Seq<usize>>::empty();
    lemma_skip_front(nodes, cond, 0, f);
    assert(!(nodes[f].block is FrontMatter));
    assert(pages_spec(nodes, cond) == split_from(nodes, cond, f + 1, seq![f as usize], empty)) by {
        assert(Seq::<usize>::empty().push(f as usize) =~= seq![f as usize]);
    }
    let cur2 = lemma_fill_until(nodes, cond, f + 1, h, seq![f as usize], empty);
    assert(!(nodes[h].block is FrontMatter));
    let done = empty.push(cur2);
    assert(split_from(nodes, cond, h, cur2, empty) == split_from(nodes, cond, h, Seq::empty(), done));
    assert(split_from(nodes, cond, h, Seq::empty(), done) == split_from(
        nodes,
        cond,
        h + 1,
        seq![h as usize],
        done,
    )) by {
        assert(Seq::<usize>::empty().push(h as usize) =~= seq![h as usize]);
    }
    lemma_no_more_breaks(nodes, cond, h + 1, seq![h as usize], done);
    let r = pages_spec(nodes, cond);
    assert(done[0] == cur2);
    assert(r == split_from(nodes, cond, h + 1, seq![h as usize], done));
    assert(r[0] == done[0]);
    assert(seq![f as usize][0] == f as usize);
    assert(seq![h as usize][0] == h as usize);
}

} // verus!
